use pathway_graph::builder::build_graph;
use petgraph::graph::{NodeIndex, UnGraph};
use petgraph::visit::EdgeRef;

fn ids(g: &UnGraph<u32, ()>) -> Vec<u32> {
    (0..g.node_count()).map(|i| g[NodeIndex::new(i)]).collect()
}

fn ends(g: &UnGraph<u32, ()>) -> Vec<(usize, usize)> {
    g.edge_references()
        .map(|e| (e.source().index(), e.target().index()))
        .collect()
}

#[test]
fn one_node_per_distinct_id() {
    let g = build_graph(&vec![(4, 2), (2, 9), (9, 4), (4, 4), (7, 2)]);
    assert_eq!(g.node_count(), 4);
    assert_eq!(ids(&g), vec![4, 2, 9, 7]);
    assert_eq!(g.edge_count(), 5);
}

#[test]
fn edges_keep_insertion_order_and_parallels() {
    let g = build_graph(&vec![(1, 2), (2, 1), (1, 2), (3, 3)]);
    assert_eq!(ids(&g), vec![1, 2, 3]);
    assert_eq!(ends(&g), vec![(0, 1), (1, 0), (0, 1), (2, 2)]);
}

#[test]
fn building_twice_gives_the_same_graph() {
    let edges = vec![(100, 5), (5, 42), (42, 100), (8, 8)];
    let a = build_graph(&edges);
    let b = build_graph(&edges);
    assert_eq!(ids(&a), ids(&b));
    assert_eq!(ends(&a), ends(&b));
}

#[test]
fn empty_edge_list_gives_empty_graph() {
    let g = build_graph(&vec![]);
    assert_eq!(g.node_count(), 0);
    assert_eq!(g.edge_count(), 0);
}

#[test]
fn largest_ids_are_kept() {
    let g = build_graph(&vec![(u32::MAX, 0)]);
    assert_eq!(ids(&g), vec![u32::MAX, 0]);
}
