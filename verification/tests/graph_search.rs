use algorithms::graph::Graph;

#[test]
fn test_bfs() {
    let graph = Graph::new_unweighted(vec![0; 5], vec![(0, 1), (1, 2), (2, 4), (3, 4)]);

    assert_eq!(Some(vec![0, 1, 2, 4]), graph.bfs(0, 4));
    assert_eq!(None, graph.bfs(4, 0));

    let graph = Graph::new_unweighted(vec![0; 5], vec![(0, 1), (1, 2), (2, 3), (3, 4), (2, 4)]);

    assert_eq!(Some(vec![0, 1, 2, 4]), graph.bfs(0, 4));

    let graph = Graph::new_unweighted(
        vec![0; 12],
        vec![
            (0, 1),
            (1, 2),
            (1, 2),
            (2, 3),
            (3, 4),
            (0, 5),
            (5, 6),
            (6, 4),
            (0, 7),
            (7, 4),
            (5, 8),
            (9, 6),
            (0, 10),
            (10, 11),
            (11, 4),
        ],
    );

    assert_eq!(Some(vec![0, 7, 4]), graph.bfs(0, 4));
    assert_eq!(Some(vec![0, 1, 2, 3]), graph.bfs(0, 3));
    assert_eq!(None, graph.bfs(1, 0));
}

#[test]
fn test_dfs() {
    let graph = Graph::new_unweighted(
        vec![0; 12],
        vec![
            (0, 1),
            (1, 2),
            (1, 2),
            (2, 3),
            (3, 4),
            (0, 5),
            (5, 6),
            (6, 4),
            (0, 7),
            (7, 4),
            (5, 8),
            (9, 6),
            (0, 10),
            (10, 11),
            (11, 4),
        ],
    );

    assert_eq!(Some(vec![0, 1, 2, 3, 4]), graph.dfs(0, 4));
    assert_eq!(Some(vec![0, 1, 2, 3]), graph.dfs(0, 3));
    assert_eq!(None, graph.dfs(1, 0));
}

#[test]
fn bfs_source_is_destination() {
    let graph = Graph::new_unweighted(vec![0; 3], vec![(0, 1), (1, 2)]);
    assert_eq!(Some(vec![1]), graph.bfs(1, 1));
    assert_eq!(Some(vec![1]), graph.dfs(1, 1));
}

#[test]
fn weighted_graph_search() {
    let graph = Graph::new(vec![0; 4], vec![(0, 1, 5), (1, 2, -3), (2, 3, 7)]);
    assert_eq!(Some(vec![0, 1, 2, 3]), graph.bfs(0, 3));
    assert_eq!(None, graph.bfs(3, 0));
}
