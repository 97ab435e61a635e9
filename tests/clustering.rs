use pathway_graph::builder::build_graph;
use pathway_graph::clustering::perform_clustering;
use petgraph::graph::UnGraph;

#[test]
fn empty_graph_has_no_clusters() {
    let g: UnGraph<u32, ()> = UnGraph::new_undirected();
    assert!(perform_clustering(&g).is_empty());
}

#[test]
fn two_disjoint_triangles_make_two_clusters() {
    let g = build_graph(&vec![(1, 2), (2, 3), (3, 1), (4, 5), (5, 6), (6, 4)]);
    let clusters = perform_clustering(&g);
    assert_eq!(clusters, vec![vec![1, 2, 3], vec![4, 5, 6]]);
}

#[test]
fn clusters_follow_first_discovery_order() {
    let g = build_graph(&vec![(10, 30), (20, 40), (40, 10), (50, 60)]);
    let clusters = perform_clustering(&g);
    assert_eq!(clusters, vec![vec![10, 30, 20, 40], vec![50, 60]]);
}

#[test]
fn only_listed_ids_are_clustered() {
    let g = build_graph(&vec![(1, 2)]);
    let clusters = perform_clustering(&g);
    assert_eq!(clusters, vec![vec![1, 2]]);
    assert!(clusters.iter().all(|c| !c.contains(&99)));
}

#[test]
fn self_loop_is_a_singleton_cluster() {
    let g = build_graph(&vec![(5, 5)]);
    assert_eq!(g.node_count(), 1);
    assert_eq!(g.edge_count(), 1);
    assert_eq!(perform_clustering(&g), vec![vec![5]]);
}

#[test]
fn nodes_without_edges_are_singletons() {
    let mut g: UnGraph<u32, ()> = UnGraph::new_undirected();
    let a = g.add_node(8);
    g.add_node(9);
    let c = g.add_node(10);
    g.add_edge(a, c, ());
    assert_eq!(perform_clustering(&g), vec![vec![8, 10], vec![9]]);
}

#[test]
fn clustering_is_repeatable() {
    let g = build_graph(&vec![(3, 4), (1, 2), (2, 2), (4, 5)]);
    assert_eq!(perform_clustering(&g), perform_clustering(&g));
}
