use pathway_graph::associations::{flatten_association, split_gene_list};

#[test]
fn genes_are_split_and_trimmed() {
    assert_eq!(
        split_gene_list(" BRCA1, TP53 ,EGFR"),
        vec!["BRCA1".to_string(), "TP53".to_string(), "EGFR".to_string()]
    );
}

#[test]
fn empty_gene_list_is_one_empty_gene() {
    assert_eq!(split_gene_list(""), vec![String::new()]);
}

#[test]
fn trailing_comma_gives_empty_gene() {
    assert_eq!(
        split_gene_list("A,B,"),
        vec!["A".to_string(), "B".to_string(), String::new()]
    );
}

#[test]
fn record_becomes_one_row_per_gene() {
    let rows = flatten_association("D1", "Some disease", "G1 , G2");
    assert_eq!(rows.len(), 2);
    assert_eq!(rows[0].disease_id, "D1");
    assert_eq!(rows[0].disease_name, "Some disease");
    assert_eq!(rows[0].gene, "G1");
    assert_eq!(rows[1].disease_id, "D1");
    assert_eq!(rows[1].gene, "G2");
}
