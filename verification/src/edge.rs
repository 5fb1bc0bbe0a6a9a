use vstd::prelude::*;

use crate::vertex::{spec_register, Vertex};

verus! {

/// An edge weight, held as the exact decimal the caller wrote:
/// `(-1 if negative) * (integer + fraction / 10^fraction_digits)`.
/// The graph never computes with weights; it stores and returns them, so an
/// exact decimal carries everything a caller can observe.
#[derive(Clone, Copy, PartialEq, Eq, Structural, Debug)]
pub struct Weight {
    pub negative: bool,
    pub integer: u64,
    pub fraction: u64,
    pub fraction_digits: u8,
}

impl Weight {
    pub fn new(negative: bool, integer: u64, fraction: u64, fraction_digits: u8) -> (w: Weight)
        ensures
            w == (Weight { negative, integer, fraction, fraction_digits }),
    {
        Weight { negative, integer, fraction, fraction_digits }
    }

    /// The unweighted default: exactly zero.
    pub fn zero() -> (w: Weight)
        ensures
            w == (Weight { negative: false, integer: 0u64, fraction: 0u64, fraction_digits: 0u8 }),
    {
        Weight { negative: false, integer: 0, fraction: 0, fraction_digits: 0 }
    }
}

/// A weighted connection between two vertices, stored by their identifiers.
/// Constructing an edge always synchronizes both endpoints' adjacency lists.
#[derive(Clone, Copy, PartialEq, Eq, Structural, Debug)]
pub struct Edge {
    pub u: u32,
    pub v: u32,
    pub weight: Weight,
}

impl Edge {
    /// Build an edge between two distinct vertices and register each
    /// endpoint in the other's adjacency list (unless already adjacent).
    pub fn new(u: &mut Vertex, v: &mut Vertex, weight: Weight) -> (e: Edge)
        requires
            old(u).wf(),
            old(v).wf(),
            old(u).index != old(v).index,
        ensures
            e.u == old(u).index,
            e.v == old(v).index,
            e.weight == weight,
            final(u).wf(),
            final(v).wf(),
            final(u).index == old(u).index,
            final(u).label == old(u).label,
            final(v).index == old(v).index,
            final(v).label == old(v).label,
            final(u).neighbors@ == spec_register(old(u).neighbors@, old(v).index),
            final(v).neighbors@ == spec_register(old(v).neighbors@, old(u).index),
    {
        let e = Edge { u: u.index, v: v.index, weight };
        Vertex::add_neighbor(u, v);
        e
    }

    /// Build a self-loop on one vertex: the vertex gains itself as a
    /// neighbor once (unless already recorded), a permitted degenerate case.
    pub fn new_loop(x: &mut Vertex, weight: Weight) -> (e: Edge)
        requires
            old(x).wf(),
        ensures
            e.u == old(x).index,
            e.v == old(x).index,
            e.weight == weight,
            final(x).wf(),
            final(x).index == old(x).index,
            final(x).label == old(x).label,
            final(x).neighbors@ == spec_register(old(x).neighbors@, old(x).index),
    {
        let e = Edge { u: x.index, v: x.index, weight };
        let own = x.index;
        if !x.has_neighbor(own) {
            x.add_as_neighbor(own);
        }
        e
    }

    /// The weight fixed at construction.
    pub fn weight(&self) -> (w: Weight)
        ensures
            w == self.weight,
    {
        self.weight
    }
}

} // verus!
