//! Flattening disease-gene associations: a record whose gene field lists several
//! genes, separated by commas, becomes one row per gene.
use vstd::prelude::*;

verus! {

/// `s` cut at every `sep`: the runs of characters between separators, in
/// order, empty runs included; a text without `sep` is one piece.
pub open spec fn cut_at(s: Seq<char>, sep: char) -> Seq<Seq<char>>
    decreases s.len(),
{
    if s.len() == 0 {
        seq![Seq::empty()]
    } else {
        let pieces = cut_at(s.drop_last(), sep);
        if s.last() == sep {
            pieces.push(Seq::empty())
        } else {
            pieces.update(pieces.len() - 1, pieces.last().push(s.last()))
        }
    }
}

/// What `str::trim` leaves of `s`.
pub uninterp spec fn trimmed(s: Seq<char>) -> Seq<char>;

/// Relies on `str::split` with a `char` pattern: the substrings between the
/// occurrences of `,`, in order, empty ones included.
#[verifier::external_body]
fn split_commas(s: &str) -> (r: Vec<String>)
    ensures
        r@.map_values(|p: String| p@) == cut_at(s@, ','),
{
    s.split(',').map(|p| p.to_owned()).collect()
}

/// Relies on `str::trim`: `s` without leading and trailing white space; the
/// result depends on the characters of `s` alone.
#[verifier::external_body]
fn trim_text(s: &str) -> (r: String)
    ensures
        r@ == trimmed(s@),
{
    s.trim().to_owned()
}

/// One association of a disease with a single gene.
#[derive(Debug)]
pub struct AssociationRow {
    pub disease_id: String,
    pub disease_name: String,
    pub gene: String,
}

/// The genes of a comma-separated gene list, each with surrounding white space
/// removed, in list order.
pub fn split_gene_list(genes: &str) -> (r: Vec<String>)
    ensures
        r@.len() == cut_at(genes@, ',').len(),
        forall|i: int| 0 <= i < r@.len() ==> #[trigger] r@[i]@ == trimmed(cut_at(genes@, ',')[i]),
{
    let parts = split_commas(genes);
    let ghost pieces = parts@.map_values(|p: String| p@);
    let mut r: Vec<String> = Vec::new();
    let mut k: usize = 0;
    while k < parts.len()
        invariant
            k <= parts@.len(),
            pieces == cut_at(genes@, ','),
            pieces == parts@.map_values(|p: String| p@),
            r@.len() == k,
            forall|i: int| 0 <= i < k ==> #[trigger] r@[i]@ == trimmed(pieces[i]),
        decreases parts@.len() - k,
    {
        let gene = trim_text(parts[k].as_str());
        r.push(gene);
        k = k + 1;
    }
    r
}

/// Flattens one association record into one row per gene of its gene list,
/// each row repeating the disease's id and name.
pub fn flatten_association(disease_id: &str, disease_name: &str, genes: &str) -> (rows: Vec<
    AssociationRow,
>)
    ensures
        rows@.len() == cut_at(genes@, ',').len(),
        forall|i: int|
            0 <= i < rows@.len() ==> {
                &&& (#[trigger] rows@[i]).gene@ == trimmed(cut_at(genes@, ',')[i])
                &&& rows@[i].disease_id@ == disease_id@
                &&& rows@[i].disease_name@ == disease_name@
            },
{
    let genes_list = split_gene_list(genes);
    let ghost pieces = cut_at(genes@, ',');
    let mut rows: Vec<AssociationRow> = Vec::new();
    let mut k: usize = 0;
    while k < genes_list.len()
        invariant
            k <= genes_list@.len(),
            genes_list@.len() == pieces.len(),
            pieces == cut_at(genes@, ','),
            forall|i: int| 0 <= i < pieces.len() ==> #[trigger] genes_list@[i]@ == trimmed(pieces[i]),
            rows@.len() == k,
            forall|i: int|
                0 <= i < k ==> {
                    &&& (#[trigger] rows@[i]).gene@ == trimmed(pieces[i])
                    &&& rows@[i].disease_id@ == disease_id@
                    &&& rows@[i].disease_name@ == disease_name@
                },
        decreases genes_list@.len() - k,
    {
        let row = AssociationRow {
            disease_id: disease_id.to_owned(),
            disease_name: disease_name.to_owned(),
            gene: genes_list[k].as_str().to_owned(),
        };
        rows.push(row);
        k = k + 1;
    }
    rows
}

} // verus!
