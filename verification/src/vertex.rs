use vstd::prelude::*;

verus! {

/// Mathematical content of a vertex: its display label and the identifiers
/// of its adjacent vertices, in the order they were registered.
pub ghost struct VertexModel {
    pub label: Seq<char>,
    pub neighbors: Seq<u32>,
}

/// Adjacency registration at the model level: append `id` to a neighbor
/// list unless it is already present.
pub open spec fn spec_register(neighbors: Seq<u32>, id: u32) -> Seq<u32> {
    if neighbors.contains(id) {
        neighbors
    } else {
        neighbors.push(id)
    }
}

/// How registration changes a neighbor list: the registered identifier is
/// present afterwards, nothing else appears or disappears, and freedom from
/// duplicates is preserved.
pub proof fn lemma_spec_register(s: Seq<u32>, x: u32)
    ensures
        spec_register(s, x).contains(x),
        forall|y: u32| s.contains(y) ==> spec_register(s, x).contains(y),
        forall|y: u32| spec_register(s, x).contains(y) ==> s.contains(y) || y == x,
        s.no_duplicates() ==> spec_register(s, x).no_duplicates(),
        spec_register(s, x).len() == if s.contains(x) {
            s.len() as int
        } else {
            s.len() + 1 as int
        },
{
    if !s.contains(x) {
        let t = s.push(x);
        assert(t[s.len() as int] == x);
        assert(t.contains(x));
        assert forall|y: u32| s.contains(y) implies t.contains(y) by {
            let i = choose|i: int| 0 <= i < s.len() && s[i] == y;
            assert(t[i] == y);
        }
        assert forall|y: u32| t.contains(y) implies s.contains(y) || y == x by {
            let i = choose|i: int| 0 <= i < t.len() && t[i] == y;
            if i < s.len() {
                assert(s[i] == y);
            }
        }
        if s.no_duplicates() {
            assert forall|p: int, q: int| 0 <= p < q < t.len() implies t[p] != t[q] by {
                if q == t.len() - 1 {
                    assert(s.contains(s[p]));
                }
            }
        }
    }
}

/// A graph node: a caller-assigned numeric identifier, a display label, the
/// identifiers of its neighbors, and a degree counter kept equal to the
/// length of the neighbor list.
pub struct Vertex {
    pub index: u32,
    pub label: String,
    pub neighbors: Vec<u32>,
    pub degree: usize,
}

impl Vertex {
    pub open spec fn model(self) -> VertexModel {
        VertexModel { label: self.label@, neighbors: self.neighbors@ }
    }

    /// Internal consistency: the degree counter matches the adjacency list,
    /// and no neighbor is recorded twice.
    pub open spec fn wf(self) -> bool {
        &&& self.degree == self.neighbors@.len()
        &&& self.neighbors@.no_duplicates()
    }

    /// A fresh vertex with empty adjacency and degree zero.
    pub fn new(index: u32, label: String) -> (v: Vertex)
        ensures
            v.index == index,
            v.label@ == label@,
            v.neighbors@ == Seq::<u32>::empty(),
            v.degree == 0,
            v.wf(),
    {
        Vertex { index, label, neighbors: Vec::new(), degree: 0 }
    }

    /// Whether `id` is already recorded as a neighbor.
    pub fn has_neighbor(&self, id: u32) -> (r: bool)
        ensures
            r == self.neighbors@.contains(id),
    {
        let mut i: usize = 0;
        while i < self.neighbors.len()
            invariant
                i <= self.neighbors@.len(),
                forall|k: int| 0 <= k < i ==> self.neighbors@[k] != id,
            decreases self.neighbors@.len() - i,
        {
            if self.neighbors[i] == id {
                assert(self.neighbors@.contains(id)) by {
                    assert(self.neighbors@[i as int] == id);
                }
                return true;
            }
            i += 1;
        }
        false
    }

    /// Record `id` as a new neighbor and advance the degree counter.
    pub fn add_as_neighbor(&mut self, id: u32)
        requires
            old(self).wf(),
            !old(self).neighbors@.contains(id),
        ensures
            final(self).wf(),
            final(self).index == old(self).index,
            final(self).label == old(self).label,
            final(self).neighbors@ == old(self).neighbors@.push(id),
            final(self).degree == old(self).degree + 1,
    {
        self.neighbors.push(id);
        self.degree = self.neighbors.len();
        proof {
            assert(final(self).neighbors@.no_duplicates()) by {
                assert forall|p: int, q: int|
                    0 <= p < q < self.neighbors@.len() implies self.neighbors@[p]
                    != self.neighbors@[q] by {
                    if q == self.neighbors@.len() - 1 {
                        assert(old(self).neighbors@.contains(old(self).neighbors@[p]));
                    }
                }
            }
        }
    }

    /// Symmetric adjacency registration: `a` gains `b` as a neighbor unless
    /// already adjacent, and `b` gains `a` unless already adjacent.  The two
    /// checks are independent, so an already-connected pair is left alone.
    pub fn add_neighbor(a: &mut Vertex, b: &mut Vertex)
        requires
            old(a).wf(),
            old(b).wf(),
        ensures
            final(a).wf(),
            final(b).wf(),
            final(a).index == old(a).index,
            final(a).label == old(a).label,
            final(a).degree == final(a).neighbors@.len(),
            final(b).index == old(b).index,
            final(b).label == old(b).label,
            final(b).degree == final(b).neighbors@.len(),
            final(a).neighbors@ == spec_register(old(a).neighbors@, old(b).index),
            final(b).neighbors@ == spec_register(old(b).neighbors@, old(a).index),
    {
        let b_index = b.index;
        let a_index = a.index;
        if !a.has_neighbor(b_index) {
            a.add_as_neighbor(b_index);
        }
        if !b.has_neighbor(a_index) {
            b.add_as_neighbor(a_index);
        }
    }
}

impl PartialEq for Vertex {
    /// Vertices are compared by identity, that is by index alone.
    fn eq(&self, other: &Self) -> bool {
        self.index == other.index
    }
}

impl vstd::std_specs::cmp::PartialEqSpecImpl for Vertex {
    open spec fn obeys_eq_spec() -> bool {
        true
    }

    open spec fn eq_spec(&self, other: &Vertex) -> bool {
        self.index == other.index
    }
}

} // verus!
