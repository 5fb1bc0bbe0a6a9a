use graphlib::edge::Weight;
use graphlib::graph::{Graph, GraphError};

#[test]
fn graph_creation() {
    let g = Graph::new();

    assert_eq!(g.vertices_amount(), 0);
    assert_eq!(g.edges_amount(), 0);
}

#[test]
fn vertex_insertion() {
    let mut g = Graph::new();
    g.insert_vertex(0, String::from("Test0"));
    g.insert_vertex(1, String::from("Test1"));

    assert_eq!(g.vertices_amount(), 2);

    assert_eq!(g.get_vertex(0).unwrap().index, 0);
    assert_eq!(g.label(0).unwrap(), String::from("Test0"));

    assert_eq!(g.get_vertex(1).unwrap().index, 1);
    assert_eq!(g.label(1).unwrap(), String::from("Test1"));
}

#[test]
fn vertex_unique_id() {
    let mut g = Graph::new();
    g.insert_vertex(0, String::from("Test0"));

    assert_eq!(g.vertex_exist(0), true);
    assert_eq!(g.vertex_exist(10), false);

    g.insert_vertex(0, "Not a vertex".to_string()); // this vertex shouldn't be inserted

    assert_eq!(g.vertices_amount(), 1);
}

#[test]
fn duplicate_insertion_keeps_first_label() {
    let mut g = Graph::new();
    g.insert_vertex(5, String::from("original"));
    g.insert_vertex(5, String::from("replacement"));

    assert_eq!(g.vertices_amount(), 1);
    assert_eq!(g.label(5).unwrap(), String::from("original"));
}

#[test]
fn edge_insertion() {
    let mut g = Graph::new();

    g.insert_vertex(0, String::from("Test0"));
    g.insert_vertex(1, String::from("Test1"));

    g.insert_edge(0, 1, Weight::new(false, 1, 0, 1));

    assert_eq!(g.edges_amount(), 1);

    assert_eq!(g.get_vertex(0).unwrap().degree, 1);
    assert_eq!(g.get_vertex(1).unwrap().degree, 1);
}

#[test]
fn edge_weight_readable_both_ways() {
    let mut g = Graph::new();
    g.insert_vertex(1, String::from("a"));
    g.insert_vertex(2, String::from("b"));

    let before_u = g.degree(1).unwrap();
    let before_v = g.degree(2).unwrap();

    let w = Weight::new(false, 3, 25, 2);
    g.insert_edge(1, 2, w);

    assert_eq!(g.degree(1).unwrap(), before_u + 1);
    assert_eq!(g.degree(2).unwrap(), before_v + 1);
    assert!(g.edge_exist(1, 2));
    assert_eq!(g.weight(1, 2).unwrap(), w);
    assert_eq!(g.weight(2, 1).unwrap(), w);
}

#[test]
fn edge_with_missing_endpoint_is_ignored() {
    let mut g = Graph::new();
    g.insert_vertex(1, String::from("a"));

    g.insert_edge(1, 2, Weight::zero());
    g.insert_edge(9, 1, Weight::zero());

    assert_eq!(g.edges_amount(), 0);
    assert_eq!(g.degree(1).unwrap(), 0);
}

#[test]
fn reversed_pair_is_second_entry() {
    let mut g = Graph::new();
    g.insert_vertex(1, String::from("a"));
    g.insert_vertex(2, String::from("b"));

    g.insert_edge(1, 2, Weight::new(false, 1, 0, 0));
    g.insert_edge(2, 1, Weight::new(false, 2, 0, 0));

    assert_eq!(g.edges_amount(), 2);
    // the ordered pair (1, 2) is found first for either query order
    assert_eq!(g.weight(1, 2).unwrap(), Weight::new(false, 1, 0, 0));
    // degrees are not inflated by the second, parallel edge
    assert_eq!(g.degree(1).unwrap(), 1);
    assert_eq!(g.degree(2).unwrap(), 1);
}

#[test]
fn self_loop_in_graph() {
    let mut g = Graph::new();
    g.insert_vertex(4, String::from("loop"));

    g.insert_edge(4, 4, Weight::zero());

    assert_eq!(g.edges_amount(), 1);
    assert_eq!(g.degree(4).unwrap(), 1);
    assert_eq!(g.weight(4, 4).unwrap(), Weight::zero());
}

#[test]
fn lookups_on_missing_keys_fail() {
    let g = Graph::new();

    assert_eq!(g.label(3), Err(GraphError::VertexNotFound(3)));
    assert_eq!(g.degree(3), Err(GraphError::VertexNotFound(3)));
    assert_eq!(g.weight(3, 4), Err(GraphError::EdgeNotFound(3, 4)));
}
