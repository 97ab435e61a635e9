use pathway_graph::loader::{load_and_construct_graph, LoadError};
use petgraph::graph::NodeIndex;

#[test]
fn loads_rows_after_header() {
    let g = load_and_construct_graph(b"source,target\n1,2\n2,3\n3,1\n").unwrap();
    assert_eq!(g.node_count(), 3);
    assert_eq!(g.edge_count(), 3);
    assert_eq!(g[NodeIndex::new(0)], 1);
    assert_eq!(g[NodeIndex::new(2)], 3);
}

#[test]
fn header_only_gives_empty_graph() {
    let g = load_and_construct_graph(b"source,target\n").unwrap();
    assert_eq!(g.node_count(), 0);
}

#[test]
fn non_numeric_row_is_malformed() {
    let r = load_and_construct_graph(b"source,target\n1,2\n3,x\n");
    match r {
        Err(LoadError::MalformedRecord { line }) => assert_eq!(line, Some(3)),
        other => panic!("unexpected result: {:?}", other.map(|g| g.node_count())),
    }
}

#[test]
fn negative_id_is_malformed() {
    let r = load_and_construct_graph(b"a,b\n-1,2\n");
    assert!(matches!(r, Err(LoadError::MalformedRecord { .. })));
}

#[test]
fn missing_field_is_malformed() {
    let r = load_and_construct_graph(b"a,b\n1,2\n3\n");
    assert!(matches!(r, Err(LoadError::MalformedRecord { .. })));
}
