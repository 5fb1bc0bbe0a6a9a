use graphlib::edge::Weight;
use graphlib::graph::{Graph, GraphError};

fn path_graph() -> Graph {
    let mut g = Graph::new();
    g.insert_vertex(1, String::from("one"));
    g.insert_vertex(2, String::from("two"));
    g.insert_vertex(3, String::from("three"));
    g.insert_vertex(4, String::from("four"));
    g.insert_edge(1, 2, Weight::new(false, 1, 0, 1));
    g.insert_edge(2, 3, Weight::new(false, 1, 0, 1));
    g.insert_edge(3, 4, Weight::new(false, 1, 0, 1));
    g
}

#[test]
fn traversal_isolated_start() {
    let mut g = Graph::new();
    g.insert_vertex(1, String::from("alone"));
    g.insert_vertex(2, String::from("elsewhere"));
    g.insert_vertex(3, String::from("far"));
    g.insert_edge(2, 3, Weight::zero());

    let d = g.dfs(1).unwrap();

    assert_eq!(d[&1], 0);
    assert_eq!(d[&2], -1);
    assert_eq!(d[&3], -1);
}

#[test]
fn traversal_path_graph_distances() {
    let g = path_graph();

    let d = g.dfs(1).unwrap();

    assert_eq!(d.len(), 4);
    assert_eq!(d[&1], 0);
    assert_eq!(d[&2], 1);
    assert_eq!(d[&3], 2);
    assert_eq!(d[&4], 3);
}

#[test]
fn traversal_shortest_route_wins() {
    let mut g = path_graph();
    // a shortcut from 1 straight to 4
    g.insert_edge(1, 4, Weight::zero());

    let d = g.dfs(1).unwrap();

    assert_eq!(d[&4], 1);
    assert_eq!(d[&3], 2);
}

#[test]
fn traversal_is_repeatable() {
    let g = path_graph();

    let first = g.dfs(1).unwrap();
    let second = g.dfs(1).unwrap();

    assert_eq!(first, second);
}

#[test]
fn traversal_missing_start() {
    let g = path_graph();

    assert_eq!(g.dfs(9), Err(GraphError::VertexNotFound(9)));
}

#[test]
fn traversal_unreached_component() {
    let mut g = path_graph();
    g.insert_vertex(10, String::from("island"));
    g.insert_vertex(11, String::from("islet"));
    g.insert_edge(10, 11, Weight::zero());

    let d = g.dfs(1).unwrap();

    assert_eq!(d[&10], -1);
    assert_eq!(d[&11], -1);
    assert_eq!(d[&2], 1);
}

#[test]
fn traversal_ids_need_not_be_contiguous() {
    let mut g = Graph::new();
    g.insert_vertex(100, String::from("a"));
    g.insert_vertex(7, String::from("b"));
    g.insert_edge(100, 7, Weight::zero());

    let d = g.dfs(100).unwrap();

    assert_eq!(d[&100], 0);
    assert_eq!(d[&7], 1);
}
