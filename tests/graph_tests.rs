use rstsort::{Digraph, DigraphParser, TopologicalSortError};

#[test]
fn test_create_graph() {
    let graph: Digraph<u32> = Digraph::new();
    assert_eq!(graph.node_count(), 0);
}

#[test]
fn test_add_node() {
    let mut graph = Digraph::new();
    graph.add_node(42);
    assert_eq!(graph.node_count(), 1);
}

#[test]
fn test_get_node_via_handle() {
    let mut graph = Digraph::new();
    let handle = graph.add_node(42);
    match graph.node(handle) {
        Some(node) => {
            assert_eq!(*node.data(), 42);
        }
        None => panic!("No node found"),
    }
}

#[test]
fn test_remove_node() {
    let mut graph = Digraph::new();
    let handle = graph.add_node(42);
    graph.remove_node(handle);
    assert_eq!(graph.node_count(), 0);
}

#[test]
fn test_add_2_then_remove_1_then_get_deleted() {
    let mut graph = Digraph::new();
    let handle = graph.add_node(1);
    let handle2 = graph.add_node(2);
    graph.remove_node(handle);
    match graph.node(handle2) {
        Some(node) => {
            assert_eq!(*node.data(), 2);
        }
        None => {
            panic!("Node not found");
        }
    }
    match graph.node(handle) {
        Some(_) => {
            panic!("Node should not exist");
        }
        None => {}
    }
}

#[test]
fn test_add_edge() {
    let mut graph = Digraph::new();
    let h1 = graph.add_node(1);
    let h2 = graph.add_node(2);
    graph.add_edge(h1, h2);
    match graph.node(h1) {
        None => panic!("Node not found"),
        Some(node) => {
            assert_eq!(node.edges().len(), 1);
            match graph.node(node.edges()[0]) {
                None => {
                    panic!("Edge not correct");
                }
                Some(n) => {
                    assert_eq!(*n.data(), 2);
                }
            }
        }
    }
}

fn values_of(graph: &Digraph<i32>) -> Vec<i32> {
    match graph.tsort() {
        Ok(sorted) => {
            assert_eq!(sorted.len(), graph.node_count());
            sorted
                .iter()
                .map(|h| match graph.node(*h) {
                    Some(node) => *node.data(),
                    None => -1,
                })
                .collect()
        }
        Err(err) => panic!("{:?}", err),
    }
}

#[test]
fn test_topological_sort() {
    let mut graph = Digraph::new();
    let h2 = graph.add_node(2);
    let h1 = graph.add_node(1);
    graph.add_edge(h1, h2);
    let h3 = graph.add_node(3);
    let h4 = graph.add_node(4);
    graph.add_edge(h2, h3);
    graph.add_edge(h1, h4);
    assert_eq!(vec![1, 4, 2, 3], values_of(&graph));
}

#[test]
fn test_topological_sort_with_cycle() {
    let mut graph = Digraph::new();
    let h1 = graph.add_node(1);
    let h2 = graph.add_node(2);
    graph.add_edge(h1, h2);
    graph.add_edge(h2, h1);
    match graph.tsort() {
        Ok(_) => {
            panic!("Sort should fail with a cycle");
        }
        Err(_) => {}
    }
}

#[test]
fn cycle_is_reported_as_cycle() {
    let mut graph = Digraph::new();
    let h1 = graph.add_node(1);
    let h2 = graph.add_node(2);
    graph.add_edge(h1, h2);
    graph.add_edge(h2, h1);
    assert_eq!(graph.tsort().err(), Some(TopologicalSortError::Cycle));
}

#[test]
fn edge_to_removed_node_is_missing_node() {
    let mut graph = Digraph::new();
    let h1 = graph.add_node(1);
    let h2 = graph.add_node(2);
    let _h3 = graph.add_node(3);
    graph.add_edge(h1, h2);
    graph.remove_node(h2);
    assert_eq!(graph.tsort().err(), Some(TopologicalSortError::MissingNode));
}

#[test]
fn edge_from_removed_node_is_dropped() {
    let mut graph = Digraph::new();
    let h1 = graph.add_node(1);
    let h2 = graph.add_node(2);
    graph.remove_node(h1);
    graph.add_edge(h1, h2);
    assert_eq!(vec![2], values_of(&graph));
}

#[test]
fn round_trip_of_four_nodes() {
    let graph = DigraphParser::new().parse("1 2\n2 3\n1 4").expect("Parse failed");
    assert_eq!(names_in_order(&graph), vec!["1", "4", "2", "3"]);
}

fn names_in_order(graph: &Digraph<String>) -> Vec<String> {
    match graph.tsort() {
        Ok(sorted) => {
            assert_eq!(sorted.len(), graph.node_count());
            sorted
                .iter()
                .map(|h| match graph.node(*h) {
                    Some(node) => node.data().clone(),
                    None => String::new(),
                })
                .collect()
        }
        Err(err) => panic!("{:?}", err),
    }
}

fn test_parse(s: &str, expected: Vec<&str>) {
    let parser = DigraphParser::new();
    let graph = parser.parse(s).expect("Parse failed");
    assert_eq!(graph.node_count(), expected.len());
    let values = names_in_order(&graph);
    let expected: Vec<String> = expected.iter().map(|x| x.to_string()).collect();
    assert_eq!(expected, values);
}

#[test]
fn test_parse_single_node() {
    let s = "a";
    let parser = DigraphParser::new();
    let graph = parser.parse(s).expect("Parse failed");
    assert_eq!(graph.node_count(), 1);
    assert_eq!(names_in_order(&graph), vec!["a".to_string()]);
}

#[test]
fn test_parse_single_edge() {
    let s = "a b";
    test_parse(&s, vec!["a", "b"]);
}

#[test]
fn test_parse_single_edge_with_trailing_newline() {
    test_parse("a b\n", vec!["a", "b"]);
}

#[test]
fn test_parse_single_edge_with_trailing_space() {
    test_parse("a b ", vec!["a", "b"]);
}

#[test]
fn test_parse_several_edges_from_one_node() {
    test_parse("a b c", vec!["a", "c", "b"]);
}

#[test]
fn test_parse_multiple_lines() {
    test_parse("a b\nb c", vec!["a", "b", "c"]);
}

#[test]
fn test_parse_multiple_lines_with_blanks() {
    test_parse("a b\n\nb c\n", vec!["a", "b", "c"]);
}

#[test]
fn repeated_name_gets_one_node() {
    let mut parser = DigraphParser::new();
    parser.parse_line("a b");
    parser.parse_line("a c");
    let graph = parser.graph();
    assert_eq!(graph.node_count(), 3);
    let sorted = graph.tsort().expect("sort failed");
    let a = sorted[0];
    let node = graph.node(a).expect("Node not found");
    assert_eq!(node.data(), "a");
    let targets: Vec<String> = node
        .edges()
        .iter()
        .map(|h| graph.node(*h).expect("Node not found").data().clone())
        .collect();
    assert_eq!(targets, vec!["b".to_string(), "c".to_string()]);
}

#[test]
fn blank_lines_parse_like_none() {
    let g1 = DigraphParser::new().parse("a b\n\nb c\n").expect("Parse failed");
    let g2 = DigraphParser::new().parse("a b\nb c").expect("Parse failed");
    assert_eq!(g1.node_count(), g2.node_count());
    assert_eq!(names_in_order(&g1), names_in_order(&g2));
}

#[test]
fn streaming_lines_matches_whole_text() {
    let mut parser = DigraphParser::new();
    parser.parse_line("1 2\n");
    parser.parse_line("   ");
    parser.parse_line("2 3");
    let g1 = parser.graph();
    let g2 = DigraphParser::new().parse("1 2\n   \n2 3").expect("Parse failed");
    assert_eq!(names_in_order(&g1), names_in_order(&g2));
    assert_eq!(names_in_order(&g1), vec!["1".to_string(), "2".to_string(), "3".to_string()]);
}

#[test]
fn edge_to_removed_lower_node_is_missing_node() {
    let mut graph = Digraph::new();
    let x = graph.add_node(2);
    let y = graph.add_node(1);
    graph.add_edge(y, x);
    graph.remove_node(x);
    assert_eq!(graph.tsort().err(), Some(TopologicalSortError::MissingNode));
}

#[test]
fn single_token_line_adds_no_edge() {
    let mut parser = DigraphParser::new();
    parser.parse_line("a");
    parser.parse_line("a");
    let graph = parser.graph();
    assert_eq!(graph.node_count(), 1);
    let sorted = graph.tsort().expect("sort failed");
    assert_eq!(graph.node(sorted[0]).expect("Node not found").edges().len(), 0);
}
