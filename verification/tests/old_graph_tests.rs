use algorithms::old_graph::Graph;

#[test]
fn test_is_tree() {
    let mut graph = Graph::new();
    let a = graph.add_node(1);
    let b = graph.add_node(1);
    // Not a tree because num edges != num nodes - 1
    assert!(!graph.is_tree());

    let _ = graph.add_edge(a, b);
    assert!(graph.is_tree());

    let c = graph.add_node(1);
    let d = graph.add_node(1);
    let _ = graph.add_edge(c, d);
    let _ = graph.add_edge(d, c);

    // num edges == num nodes - 1
    // but not a tree because it's not connected
    assert!(!graph.is_tree());
}

#[test]
fn add_edge_rejects_missing_nodes() {
    let mut graph = Graph::new();
    let a = graph.add_node(0);
    assert_eq!(graph.add_edge(a, 5), Err(()));
    assert_eq!(graph.add_edge(7, a), Err(()));
    let b = graph.add_node(0);
    assert_eq!(graph.add_edge(a, b), Ok(()));
}
