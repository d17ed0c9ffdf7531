use graph_distance::{
    parse_edge_list, parse_graph, parse_line, Graph, LineMeaning, OnMalformed, ParseError,
};

#[test]
fn line_with_two_numbers_is_an_edge() {
    assert_eq!(parse_line("1 2"), LineMeaning::Edge(1, 2));
    assert_eq!(parse_line("0\t17"), LineMeaning::Edge(0, 17));
    assert_eq!(parse_line("  12   34  "), LineMeaning::Edge(12, 34));
    assert_eq!(parse_line("007 010"), LineMeaning::Edge(7, 10));
}

#[test]
fn line_with_more_numbers_gives_the_first_two() {
    assert_eq!(parse_line("1 2 3"), LineMeaning::Edge(1, 2));
    assert_eq!(parse_line("5 6 7 8 9"), LineMeaning::Edge(5, 6));
}

#[test]
fn comment_lines_are_skipped() {
    assert_eq!(parse_line("# FromNodeId ToNodeId"), LineMeaning::Skipped);
    assert_eq!(parse_line("#1 2"), LineMeaning::Skipped);
    assert_eq!(parse_line("#"), LineMeaning::Skipped);
}

#[test]
fn comment_mark_counts_only_at_the_start() {
    assert_eq!(parse_line(" # 1 2"), LineMeaning::Malformed);
    assert_eq!(parse_line("1 2 # note"), LineMeaning::Malformed);
    assert_eq!(parse_line(" #"), LineMeaning::Skipped);
}

#[test]
fn short_lines_are_skipped() {
    assert_eq!(parse_line(""), LineMeaning::Skipped);
    assert_eq!(parse_line("   "), LineMeaning::Skipped);
    assert_eq!(parse_line("42"), LineMeaning::Skipped);
    assert_eq!(parse_line("word"), LineMeaning::Skipped);
    assert_eq!(parse_line("\r"), LineMeaning::Skipped);
}

#[test]
fn words_that_are_no_numbers_make_a_line_malformed() {
    assert_eq!(parse_line("a b"), LineMeaning::Malformed);
    assert_eq!(parse_line("1 b"), LineMeaning::Malformed);
    assert_eq!(parse_line("a 2"), LineMeaning::Malformed);
    assert_eq!(parse_line("1 2 x"), LineMeaning::Malformed);
    assert_eq!(parse_line("1 -2"), LineMeaning::Malformed);
    assert_eq!(parse_line("1.5 2"), LineMeaning::Malformed);
    assert_eq!(parse_line("1 2a"), LineMeaning::Malformed);
    assert_eq!(parse_line("+ 2"), LineMeaning::Malformed);
    assert_eq!(parse_line("1 ++2"), LineMeaning::Malformed);
    assert_eq!(parse_line("1 \u{663}"), LineMeaning::Malformed);
}

#[test]
fn plus_sign_is_accepted() {
    assert_eq!(parse_line("+1 +2"), LineMeaning::Edge(1, 2));
    assert_eq!(parse_line("+0 3"), LineMeaning::Edge(0, 3));
}

#[test]
fn numbers_up_to_the_largest_vertex() {
    let largest = usize::MAX;
    let line = format!("{} 0", largest);
    assert_eq!(parse_line(&line), LineMeaning::Edge(largest, 0));
    let padded = format!("000{} +{}", largest, largest);
    assert_eq!(parse_line(&padded), LineMeaning::Edge(largest, largest));
}

#[test]
fn numbers_beyond_the_largest_vertex_are_malformed() {
    let beyond = format!("{}0 1", usize::MAX);
    assert_eq!(parse_line(&beyond), LineMeaning::Malformed);
    let next = format!("1 {}", usize::MAX as u128 + 1);
    assert_eq!(parse_line(&next), LineMeaning::Malformed);
    assert_eq!(
        parse_line("1 99999999999999999999999999999999999999999999"),
        LineMeaning::Malformed
    );
}

#[test]
fn unicode_white_space_separates_words() {
    assert_eq!(parse_line("1\u{a0}2"), LineMeaning::Edge(1, 2));
    assert_eq!(parse_line("\u{2003}3\u{3000}4\u{85}"), LineMeaning::Edge(3, 4));
    assert_eq!(parse_line("5\u{b}6\u{c}"), LineMeaning::Edge(5, 6));
    // U+200B, the zero width space, is no white space.
    assert_eq!(parse_line("1\u{200b}2"), LineMeaning::Skipped);
    assert_eq!(parse_line("1\u{200b}2 3"), LineMeaning::Malformed);
}

#[test]
fn edges_come_in_the_order_of_the_lines() {
    let text = "# Directed graph\n# Nodes: 3 Edges: 4\n0\t1\n0\t2\n1\t2\n2\t0\n";
    assert_eq!(
        parse_edge_list(text, OnMalformed::Reject),
        Ok(vec![(0, 1), (0, 2), (1, 2), (2, 0)])
    );
}

#[test]
fn last_line_needs_no_line_feed() {
    assert_eq!(parse_edge_list("1 2\n3 4", OnMalformed::Reject), Ok(vec![(1, 2), (3, 4)]));
    assert_eq!(parse_edge_list("1 2", OnMalformed::Reject), Ok(vec![(1, 2)]));
}

#[test]
fn empty_text_has_no_edges() {
    assert_eq!(parse_edge_list("", OnMalformed::Reject), Ok(vec![]));
    assert_eq!(parse_edge_list("\n\n\n", OnMalformed::Reject), Ok(vec![]));
    assert_eq!(parse_edge_list("# only a comment", OnMalformed::Reject), Ok(vec![]));
}

#[test]
fn carriage_returns_are_white_space() {
    assert_eq!(
        parse_edge_list("1 2\r\n3 4\r\n\r\n", OnMalformed::Reject),
        Ok(vec![(1, 2), (3, 4)])
    );
}

#[test]
fn blank_and_short_lines_between_edges() {
    assert_eq!(
        parse_edge_list("1 2\n\n7\n  \nx\n3 4\n", OnMalformed::Reject),
        Ok(vec![(1, 2), (3, 4)])
    );
}

#[test]
fn first_malformed_line_is_reported() {
    assert_eq!(
        parse_edge_list("1 2\nfoo bar\n3 4\nbaz qux\n", OnMalformed::Reject),
        Err(ParseError { line: 2 })
    );
    assert_eq!(parse_edge_list("a b", OnMalformed::Reject), Err(ParseError { line: 1 }));
    assert_eq!(
        parse_edge_list("# c\n\n\n1 2\n1 x\n", OnMalformed::Reject),
        Err(ParseError { line: 5 })
    );
}

#[test]
fn malformed_lines_can_be_skipped() {
    assert_eq!(
        parse_edge_list("1 2\nfoo bar\n3 4\nbaz qux\n", OnMalformed::Skip),
        Ok(vec![(1, 2), (3, 4)])
    );
    assert_eq!(parse_edge_list("a b", OnMalformed::Skip), Ok(vec![]));
}

#[test]
fn graph_of_a_text() {
    let graph = match parse_graph("1 2\n1 3\n2 1\n1 2\n", OnMalformed::Reject) {
        Ok(graph) => graph,
        Err(error) => panic!("line {}", error.line),
    };
    assert_eq!(graph.adjacency_list.len(), 2);
    assert_eq!(graph.adjacency_list.get(&1), Some(&vec![2, 3, 2]));
    assert_eq!(graph.adjacency_list.get(&2), Some(&vec![1]));
    assert_eq!(graph.adjacency_list.get(&3), None);
}

#[test]
fn graph_of_a_malformed_text() {
    match parse_graph("1 2\n3 four\n", OnMalformed::Reject) {
        Ok(_) => panic!("the second line is malformed"),
        Err(error) => assert_eq!(error, ParseError { line: 2 }),
    }
    match parse_graph("1 2\n3 four\n", OnMalformed::Skip) {
        Ok(graph) => assert_eq!(graph.adjacency_list.len(), 1),
        Err(error) => panic!("line {}", error.line),
    }
}

#[test]
fn graph_keeps_parallel_edges_and_self_loops() {
    let graph = Graph::from_edges(&[(3, 3), (3, 4), (3, 4), (4, 3), (3, 3)]);
    assert_eq!(graph.adjacency_list.get(&3), Some(&vec![3, 4, 4, 3]));
    assert_eq!(graph.adjacency_list.get(&4), Some(&vec![3]));
}

#[test]
fn graph_has_no_entry_for_a_sink() {
    let graph = Graph::from_edges(&[(1, 2), (1, 3)]);
    assert_eq!(graph.adjacency_list.len(), 1);
    assert!(graph.adjacency_list.contains_key(&1));
    assert!(!graph.adjacency_list.contains_key(&2));
    assert_eq!(graph.neighbor_list(1), Some(&vec![2, 3]));
    assert_eq!(graph.neighbor_list(2), None);
}

#[test]
fn empty_graph() {
    assert!(Graph::new().adjacency_list.is_empty());
    assert!(Graph::from_edges(&[]).adjacency_list.is_empty());
}

#[test]
fn edges_round_trip() {
    let edges: Vec<(usize, usize)> =
        vec![(5, 1), (2, 9), (5, 3), (2, 9), (7, 7), (5, 1), (2, 4), (9, 2)];
    let graph = Graph::from_edges(&edges);
    // Per source, the list holds the destinations in the order of the edges.
    for source in 0..10usize {
        let expected: Vec<usize> =
            edges.iter().filter(|edge| edge.0 == source).map(|edge| edge.1).collect();
        match graph.adjacency_list.get(&source) {
            Some(list) => assert_eq!(list, &expected),
            None => assert!(expected.is_empty()),
        }
    }
    // The pairs of a source and an entry of its list are the edges again.
    let mut rebuilt: Vec<(usize, usize)> = Vec::new();
    for (source, list) in graph.adjacency_list.iter() {
        for target in list.iter() {
            rebuilt.push((*source, *target));
        }
    }
    let mut sorted = edges.clone();
    sorted.sort();
    rebuilt.sort();
    assert_eq!(rebuilt, sorted);
}
