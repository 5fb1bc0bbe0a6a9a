use graphlib::edge::Weight;
use graphlib::file_processor::FileProcessor;
use graphlib::graph::Graph;
use graphlib::import::ImportError;

fn sample_net() -> String {
    let mut s = String::new();
    s.push_str("*vertices 8\n");
    s.push_str("1 A\n");
    s.push_str("2 B\n");
    s.push_str("3 C\n");
    s.push_str("4 D\n");
    s.push_str("5 E\n");
    s.push_str("6 F\n");
    s.push_str("7 G\n");
    s.push_str("8 H\n");
    s.push_str("*edges\n");
    s.push_str("1 2 1.0\n");
    s.push_str("1 3 1.0\n");
    s.push_str("2 3 2.0\n");
    s.push_str("3 4 1.5\n");
    s.push_str("4 5 0.5\n");
    s.push_str("5 6 1.0\n");
    s.push_str("6 7 2.5\n");
    s.push_str("7 8 1.0\n");
    s.push_str("8 1 3.0\n");
    s.push_str("2 5 1.0\n");
    s.push_str("4 7 2.0\n");
    s
}

#[test]
fn reading_graph_from_file() {
    let content = sample_net();
    let graph = Graph::read_from_text(&content);
    let graph = graph.unwrap();

    assert_eq!(graph.vertices_amount(), 8);
    assert_eq!(graph.edges_amount(), 11);
}

#[test]
fn imported_values_are_kept() {
    let content = sample_net();
    let graph = Graph::read_from_text(&content).unwrap();

    assert_eq!(graph.label(3).unwrap(), String::from("C"));
    assert_eq!(graph.weight(3, 4).unwrap(), Weight::new(false, 1, 5, 1));
    assert_eq!(graph.weight(5, 4).unwrap(), Weight::new(false, 0, 5, 1));
    assert_eq!(graph.degree(1).unwrap(), 3);
}

#[test]
fn labels_are_joined_with_single_spaces() {
    let content = "*vertices 1\n1   New   York\n";
    let graph = Graph::read_from_text(content).unwrap();

    assert_eq!(graph.label(1).unwrap(), String::from("New York"));
}

#[test]
fn blank_lines_are_skipped() {
    let content = "*vertices 2\n1 a\n\n   \n2 b\n*arcs\n\n1 2 0.5\n";
    let graph = Graph::read_from_text(content).unwrap();

    assert_eq!(graph.vertices_amount(), 2);
    assert_eq!(graph.edges_amount(), 1);
}

#[test]
fn malformed_weight_aborts_import() {
    let content = "*vertices 2\n1 a\n2 b\n*edges\n1 2 heavy\n";
    let result = Graph::read_from_text(content);

    assert_eq!(result.err(), Some(ImportError::MalformedInput));
}

#[test]
fn malformed_vertex_id_aborts_import() {
    let content = "*vertices 1\nx label\n";
    let result = Graph::read_from_text(content);

    assert_eq!(result.err(), Some(ImportError::MalformedInput));
}

#[test]
fn short_edge_line_aborts_import() {
    let content = "*vertices 2\n1 a\n2 b\n*edges\n1 2\n";
    let result = Graph::read_from_text(content);

    assert_eq!(result.err(), Some(ImportError::MalformedInput));
}

#[test]
fn short_vertex_line_aborts_import() {
    let content = "*vertices 1\n1\n";
    let result = Graph::read_from_text(content);

    assert_eq!(result.err(), Some(ImportError::MalformedInput));
}

#[test]
fn negative_and_signed_weights_parse() {
    let content = "*vertices 2\n1 a\n2 b\n*edges\n1 2 -2.75\n2 1 +4\n";
    let graph = Graph::read_from_text(content).unwrap();

    assert_eq!(graph.weight(1, 2).unwrap(), Weight::new(true, 2, 75, 2));
    assert_eq!(graph.weight(2, 1).unwrap(), Weight::new(false, 4, 0, 0));
}

#[test]
fn edge_between_unknown_vertices_is_ignored() {
    let content = "*vertices 2\n1 a\n2 b\n*edges\n1 9 1.0\n";
    let graph = Graph::read_from_text(content).unwrap();

    assert_eq!(graph.edges_amount(), 0);
}

#[test]
fn test_trim_trailing_blank_lines() {
    let fp = FileProcessor::from_text("First line\nSecond line\n\n\n");

    assert_eq!(fp.content(), String::from("First line\nSecond line"));
}

#[test]
fn trim_keeps_inner_blanks_and_last_line_spaces() {
    let fp = FileProcessor::from_text("a\n\nb  \n \t\n\n");

    assert_eq!(fp.content(), String::from("a\n\nb  "));
}

#[test]
fn trim_of_only_blanks_is_empty() {
    let fp = FileProcessor::from_text(" \n\t\n\n");

    assert_eq!(fp.content(), String::new());
}

#[test]
fn empty_text_gives_empty_graph() {
    let graph = Graph::read_from_text("").unwrap();

    assert_eq!(graph.vertices_amount(), 0);
    assert_eq!(graph.edges_amount(), 0);
}

#[test]
fn bare_fraction_and_bare_integer_part_parse() {
    let content = "*vertices 2\n1 a\n2 b\n*edges\n1 2 .5\n2 1 5.\n";
    let graph = Graph::read_from_text(content).unwrap();

    assert_eq!(graph.weight(1, 2).unwrap(), Weight::new(false, 0, 5, 1));
    assert_eq!(graph.weight(2, 1).unwrap(), Weight::new(false, 5, 0, 0));
}

#[test]
fn exponent_notation_is_rejected() {
    let content = "*vertices 2\n1 a\n2 b\n*edges\n1 2 1e5\n";
    let result = Graph::read_from_text(content);

    assert_eq!(result.err(), Some(ImportError::MalformedInput));
}

#[test]
fn largest_vertex_id_works() {
    let content = "*vertices 2\n4294967295 top\n0 bottom\n*edges\n4294967295 0 1.0\n";
    let graph = Graph::read_from_text(content).unwrap();

    assert_eq!(graph.vertices_amount(), 2);
    assert!(graph.edge_exist(4294967295, 0));
    assert_eq!(graph.label(4294967295).unwrap(), String::from("top"));
}

#[test]
fn oversized_vertex_id_is_rejected() {
    let content = "*vertices 1\n4294967296 too big\n";
    let result = Graph::read_from_text(content);

    assert_eq!(result.err(), Some(ImportError::MalformedInput));
}
