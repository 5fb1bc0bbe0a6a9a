use graphlib::edge::{Edge, Weight};
use graphlib::vertex::Vertex;

#[test]
fn vertex_creation() {
    let v = Vertex::new(0, String::from("Test"));

    assert_eq!(v.index, 0);
    assert_eq!(v.label, String::from("Test"));
    assert_eq!(v.degree, 0);
}

#[test]
fn adding_neigbor() {
    let mut u = Vertex::new(0, String::from("TestU"));
    let mut v = Vertex::new(1, String::from("TestV"));

    Vertex::add_neighbor(&mut u, &mut v);

    assert_eq!(u.degree, 1);
    assert_eq!(u.neighbors.contains(&1), true);

    assert_eq!(v.degree, 1);
    assert_eq!(v.neighbors.contains(&0), true);
}

#[test]
fn adding_neighbor_twice_changes_nothing() {
    let mut u = Vertex::new(0, String::from("TestU"));
    let mut v = Vertex::new(1, String::from("TestV"));

    Vertex::add_neighbor(&mut u, &mut v);
    Vertex::add_neighbor(&mut u, &mut v);

    assert_eq!(u.degree, 1);
    assert_eq!(v.degree, 1);
    assert_eq!(u.neighbors, vec![1]);
    assert_eq!(v.neighbors, vec![0]);
}

#[test]
fn edge_creation() {
    let mut u = Vertex::new(0, "U".to_string());
    let mut v = Vertex::new(1, "V".to_string());

    let edge = Edge::new(&mut u, &mut v, Weight::new(false, 1, 0, 1));

    assert_eq!(edge.u, u.index);
    assert_eq!(edge.v, v.index);
}

#[test]
fn edge_weight_is_fixed() {
    let mut u = Vertex::new(0, "U".to_string());
    let mut v = Vertex::new(1, "V".to_string());

    let w = Weight::new(true, 2, 5, 1);
    let edge = Edge::new(&mut u, &mut v, w);

    assert_eq!(edge.weight(), w);
    assert_eq!(u.degree, 1);
    assert_eq!(v.degree, 1);
}

#[test]
fn self_loop_adds_one_adjacency() {
    let mut x = Vertex::new(7, "loop".to_string());

    let edge = Edge::new_loop(&mut x, Weight::zero());

    assert_eq!(edge.u, 7);
    assert_eq!(edge.v, 7);
    assert_eq!(x.degree, 1);
    assert_eq!(x.neighbors, vec![7]);
}

#[test]
fn vertices_compare_by_index() {
    let a = Vertex::new(3, "one".to_string());
    let b = Vertex::new(3, "another".to_string());
    let c = Vertex::new(4, "one".to_string());

    assert!(a == b);
    assert!(a != c);
}
