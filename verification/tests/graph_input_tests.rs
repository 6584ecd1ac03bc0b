use algorithms::graph::Graph;
use algorithms::graph_input::{parse_graph_content, parse_numbers, parse_usize, GraphFileError};

#[test]
fn parse_usize_reads_digits() {
    assert_eq!(parse_usize(b"0"), Some(0));
    assert_eq!(parse_usize(b"12345"), Some(12345));
    assert_eq!(parse_usize(b""), None);
    assert_eq!(parse_usize(b"12a"), None);
    assert_eq!(parse_usize(b" 1"), None);
}

#[test]
fn parse_usize_rejects_overflow() {
    let max = usize::MAX.to_string();
    assert_eq!(parse_usize(max.as_bytes()), Some(usize::MAX));
    let over = format!("{}0", usize::MAX);
    assert_eq!(parse_usize(over.as_bytes()), None);
}

#[test]
fn parse_numbers_reads_bracketed_pairs() {
    assert_eq!(
        parse_numbers(b"[0, 1], [1, 2], [2, 4]"),
        Some(vec![0, 1, 1, 2, 2, 4])
    );
    assert_eq!(parse_numbers(b""), Some(vec![]));
    assert_eq!(parse_numbers(b"[1, x]"), None);
}

#[test]
fn parse_graph_content_whole_file() {
    let data = b"5\n[0, 1], [1, 2], [2, 4], [3, 4]\n0\n4\n";
    let (num_nodes, edges, source, destination) = parse_graph_content(data).unwrap();
    assert_eq!(num_nodes, 5);
    assert_eq!(edges, vec![(0, 1), (1, 2), (2, 4), (3, 4)]);
    assert_eq!(source, 0);
    assert_eq!(destination, 4);
}

#[test]
fn parse_graph_content_reports_faults() {
    assert_eq!(parse_graph_content(b""), Err(GraphFileError::MissingLine));
    assert_eq!(parse_graph_content(b"x\n"), Err(GraphFileError::BadNodeCount));
    assert_eq!(parse_graph_content(b"3\n"), Err(GraphFileError::MissingLine));
    assert_eq!(
        parse_graph_content(b"3\n[0, z]\n0\n2\n"),
        Err(GraphFileError::BadEdgeNumber)
    );
    assert_eq!(
        parse_graph_content(b"3\n[0, 1]\n?\n2\n"),
        Err(GraphFileError::BadSource)
    );
    assert_eq!(
        parse_graph_content(b"3\n[0, 1]\n0\n"),
        Err(GraphFileError::MissingLine)
    );
    assert_eq!(
        parse_graph_content(b"3\n[0, 1]\n0\nzz\n"),
        Err(GraphFileError::BadDestination)
    );
}

#[test]
fn parsed_file_drives_a_search() {
    let data = b"5\n[0, 1], [1, 2], [2, 4], [3, 4]\n0\n4\n";
    let (num_nodes, edges, source, destination) = parse_graph_content(data).unwrap();
    let graph = Graph::new_unweighted(vec![0; num_nodes], edges);
    assert_eq!(graph.bfs(source, destination), Some(vec![0, 1, 2, 4]));
    assert_eq!(graph.dfs(source, destination), Some(vec![0, 1, 2, 4]));
}
