use pathway_graph::builder::build_graph;
use pathway_graph::centrality::{compute_centrality_measures, CentralityScores};
use petgraph::graph::UnGraph;
use std::collections::HashMap;

fn as_scores(r: &CentralityScores) -> HashMap<u32, f64> {
    r.entries
        .iter()
        .map(|&(id, count)| (id, count as f64 / r.divisor as f64))
        .collect()
}

#[test]
fn test_empty_graph_compute_centrality_measures() {
    let graph: UnGraph<u32, ()> = UnGraph::new_undirected();
    let centrality = as_scores(&compute_centrality_measures(&graph));
    assert!(
        centrality.is_empty(),
        "Centrality should be empty for an empty graph"
    );
}

#[test]
fn test_multiple_nodes_compute_centrality_measures() {
    let mut graph: UnGraph<u32, ()> = UnGraph::new_undirected();
    let n1 = graph.add_node(1);
    let n2 = graph.add_node(2);
    let n3 = graph.add_node(3);
    graph.add_edge(n1, n2, ());
    graph.add_edge(n2, n3, ());
    let centrality = as_scores(&compute_centrality_measures(&graph));
    assert!(
        !centrality.is_empty(),
        "Centrality should be calculated for all nodes"
    );
    assert_eq!(
        centrality[&2], 1.0,
        "Node 2 should have the highest centrality"
    );
}

#[test]
fn path_graph_scores_every_node_one() {
    let g = build_graph(&vec![(1, 2), (2, 3)]);
    let r = compute_centrality_measures(&g);
    assert_eq!(r.divisor, 2);
    assert_eq!(r.entries, vec![(1, 2), (2, 2), (3, 2)]);
    let scores = as_scores(&r);
    assert_eq!(scores[&1], 1.0);
    assert_eq!(scores[&2], 1.0);
    assert_eq!(scores[&3], 1.0);
}

#[test]
fn single_node_has_no_scores() {
    let g = build_graph(&vec![(7, 7)]);
    let r = compute_centrality_measures(&g);
    assert!(r.entries.is_empty());
    assert_eq!(r.divisor, 0);
}

#[test]
fn two_connected_nodes_have_no_scores() {
    let g = build_graph(&vec![(1, 2)]);
    let r = compute_centrality_measures(&g);
    assert!(r.entries.is_empty());
    assert_eq!(r.divisor, 0);
}

#[test]
fn disconnected_nodes_count_only_their_component() {
    // A triangle 1-2-3, an edge 4-5 and an isolated self-loop on 6.
    let g = build_graph(&vec![(1, 2), (2, 3), (3, 1), (4, 5), (6, 6)]);
    let r = compute_centrality_measures(&g);
    assert_eq!(r.divisor, 20);
    assert_eq!(r.entries, vec![(1, 2), (2, 2), (3, 2), (4, 1), (5, 1)]);
    let scores = as_scores(&r);
    assert_eq!(scores[&1], 0.1);
    assert_eq!(scores[&4], 0.05);
    assert!(!scores.contains_key(&6));
}

#[test]
fn self_loop_does_not_count_towards_own_score() {
    // Node 5 carries a self-loop; it is reached by 6 and 7 only.
    let g = build_graph(&vec![(5, 5), (5, 6), (6, 7)]);
    let r = compute_centrality_measures(&g);
    assert_eq!(r.entries, vec![(5, 2), (6, 2), (7, 2)]);
}

#[test]
fn centrality_is_repeatable() {
    let g = build_graph(&vec![(1, 2), (2, 3), (4, 5), (3, 4)]);
    let a = compute_centrality_measures(&g);
    let b = compute_centrality_measures(&g);
    assert_eq!(a.entries, b.entries);
    assert_eq!(a.divisor, b.divisor);
}
