use vstd::prelude::*;

use std::collections::HashMap;

use crate::edge::{Edge, Weight};
use crate::vertex::{spec_register, Vertex, VertexModel};

verus! {

/// A query referenced a vertex or an edge that is not in the graph; the
/// offending identifier(s) ride along.
#[derive(Clone, Copy, PartialEq, Eq, Structural, Debug)]
pub enum GraphError {
    VertexNotFound(u32),
    EdgeNotFound(u32, u32),
}

/// Mathematical content of a graph: the vertices keyed by identifier and
/// the edges keyed by the encoded ordered identifier pair.
pub ghost struct GraphModel {
    pub vertices: Map<u32, VertexModel>,
    pub edges: Map<u64, Edge>,
}

/// The storage key of an edge inserted as `(u, v)`: both identifiers packed
/// into one integer, high half `u`, low half `v`.
pub open spec fn edge_key(u: u32, v: u32) -> u64 {
    ((u as int) * 0x1_0000_0000 + (v as int)) as u64
}

/// Distinct ordered pairs always receive distinct storage keys.
pub proof fn lemma_edge_key_injective(u1: u32, v1: u32, u2: u32, v2: u32)
    ensures
        edge_key(u1, v1) == edge_key(u2, v2) <==> (u1 == u2 && v1 == v2),
{
}

pub open spec fn empty_model() -> GraphModel {
    GraphModel { vertices: Map::empty(), edges: Map::empty() }
}

/// Structural health of a graph model: adjacency lists mention only
/// existing vertices, never twice, and symmetrically; every stored edge
/// sits under the key of its own endpoint pair, between existing vertices
/// whose adjacency lists reflect it.
pub open spec fn model_wf(m: GraphModel) -> bool {
    &&& forall|id: u32| #[trigger] m.vertices.contains_key(id)
        ==> m.vertices[id].neighbors.no_duplicates()
    &&& forall|a: u32, b: u32|
        m.vertices.contains_key(a) && #[trigger] m.vertices[a].neighbors.contains(b)
            ==> m.vertices.contains_key(b) && m.vertices[b].neighbors.contains(a)
    &&& forall|k: u64| #[trigger] m.edges.contains_key(k) ==> {
        let e = m.edges[k];
        &&& k == edge_key(e.u, e.v)
        &&& m.vertices.contains_key(e.u)
        &&& m.vertices.contains_key(e.v)
        &&& m.vertices[e.u].neighbors.contains(e.v)
        &&& m.vertices[e.v].neighbors.contains(e.u)
    }
}

/// Inserting a vertex at the model level: a no-op when the identifier is
/// taken, otherwise a fresh vertex with empty adjacency.
pub open spec fn spec_insert_vertex(m: GraphModel, id: u32, label: Seq<char>) -> GraphModel {
    if m.vertices.contains_key(id) {
        m
    } else {
        GraphModel {
            vertices: m.vertices.insert(
                id,
                VertexModel { label, neighbors: Seq::<u32>::empty() },
            ),
            edges: m.edges,
        }
    }
}

/// Symmetric adjacency registration at the model level.
pub open spec fn spec_connect(vm: Map<u32, VertexModel>, u: u32, v: u32) -> Map<u32, VertexModel> {
    if u == v {
        vm.insert(
            u,
            VertexModel { label: vm[u].label, neighbors: spec_register(vm[u].neighbors, u) },
        )
    } else {
        let vm1 = vm.insert(
            u,
            VertexModel { label: vm[u].label, neighbors: spec_register(vm[u].neighbors, v) },
        );
        vm1.insert(
            v,
            VertexModel { label: vm1[v].label, neighbors: spec_register(vm1[v].neighbors, u) },
        )
    }
}

/// Registration keeps the vertex side of `model_wf` intact: the domain and
/// all labels are untouched, adjacency only grows, and the two endpoints
/// end up adjacent.
proof fn lemma_connect_wf(vm: Map<u32, VertexModel>, u: u32, v: u32)
    requires
        forall|id: u32| #[trigger] vm.contains_key(id) ==> vm[id].neighbors.no_duplicates(),
        forall|a: u32, b: u32|
            vm.contains_key(a) && #[trigger] vm[a].neighbors.contains(b) ==> vm.contains_key(b)
                && vm[b].neighbors.contains(a),
        vm.contains_key(u),
        vm.contains_key(v),
    ensures
        ({
            let vm2 = spec_connect(vm, u, v);
            &&& vm2.dom() =~= vm.dom()
            &&& forall|id: u32| #[trigger] vm2.contains_key(id)
                ==> vm2[id].neighbors.no_duplicates()
            &&& forall|a: u32, b: u32|
                vm2.contains_key(a) && #[trigger] vm2[a].neighbors.contains(b)
                    ==> vm2.contains_key(b) && vm2[b].neighbors.contains(a)
            &&& vm2[u].neighbors.contains(v)
            &&& vm2[v].neighbors.contains(u)
            &&& forall|a: u32, b: u32|
                vm.contains_key(a) && #[trigger] vm[a].neighbors.contains(b)
                    ==> vm2[a].neighbors.contains(b)
            &&& forall|id: u32| #[trigger] vm2.contains_key(id) ==> vm2[id].label == vm[id].label
        }),
{
    let vm2 = spec_connect(vm, u, v);
    crate::vertex::lemma_spec_register(vm[u].neighbors, v);
    crate::vertex::lemma_spec_register(vm[v].neighbors, u);
    if u != v {
        crate::vertex::lemma_spec_register(spec_register(vm[u].neighbors, v), u);
    }
    assert forall|a: u32, b: u32|
        vm2.contains_key(a) && #[trigger] vm2[a].neighbors.contains(b) implies vm2.contains_key(b)
        && vm2[b].neighbors.contains(a) by {
        if a == u && b == v {
        } else if a == v && b == u {
        } else if a == u {
            assert(vm[u].neighbors.contains(b));
            assert(vm[b].neighbors.contains(u));
        } else if a == v {
            assert(vm[v].neighbors.contains(b));
            assert(vm[b].neighbors.contains(v));
        } else {
            assert(vm[a].neighbors.contains(b));
            assert(vm[b].neighbors.contains(a));
        }
    }
}

/// Inserting an edge at the model level: a no-op when either endpoint is
/// missing; otherwise both endpoints' adjacency is registered and the edge
/// is stored under its ordered pair key, overwriting any previous edge
/// under the very same ordered pair (adjacency and degrees are untouched by
/// such an overwrite, since the endpoints are already adjacent).
pub open spec fn spec_insert_edge(m: GraphModel, u: u32, v: u32, w: Weight) -> GraphModel {
    if !m.vertices.contains_key(u) || !m.vertices.contains_key(v) {
        m
    } else {
        GraphModel {
            vertices: spec_connect(m.vertices, u, v),
            edges: m.edges.insert(edge_key(u, v), Edge { u, v, weight: w }),
        }
    }
}

/// The weight lookup at the model level: the ordered pair `(u, v)` is tried
/// first, then the reversed pair, since edges are logically undirected.
pub open spec fn spec_weight(m: GraphModel, u: u32, v: u32) -> Result<Weight, GraphError> {
    if m.edges.contains_key(edge_key(u, v)) {
        Ok(m.edges[edge_key(u, v)].weight)
    } else if m.edges.contains_key(edge_key(v, u)) {
        Ok(m.edges[edge_key(v, u)].weight)
    } else {
        Err(GraphError::EdgeNotFound(u, v))
    }
}

/// An in-memory labeled multigraph, grown monotonically: vertices keyed by
/// identifier, edges keyed by ordered identifier pair.
pub struct Graph {
    vertices: HashMap<u32, Vertex>,
    order: Vec<u32>,
    edges: HashMap<u64, Edge>,
}

impl Graph {
    /// The mathematical content of this graph.
    pub closed spec fn model(self) -> GraphModel {
        GraphModel {
            vertices: self.vertices@.map_values(|x: Vertex| x.model()),
            edges: self.edges@,
        }
    }

    /// Well-formedness: the stored data is internally consistent.  The
    /// constructor establishes it and every mutating method preserves it.
    pub closed spec fn wf(self) -> bool {
        &&& model_wf(self.model())
        &&& forall|id: u32| #[trigger] self.vertices@.contains_key(id)
            ==> self.vertices@[id].index == id && self.vertices@[id].wf()
        &&& self.order@.no_duplicates()
        &&& forall|i: int|
            0 <= i < self.order@.len() ==> self.vertices@.contains_key(#[trigger] self.order@[i])
        &&& forall|id: u32| #[trigger] self.vertices@.contains_key(id) ==> self.order@.contains(id)
        &&& self.order@.len() == self.vertices@.len()
    }

    /// Consequences of well-formedness that other modules rely on.
    pub proof fn lemma_wf_model(g: Graph)
        requires
            g.wf(),
        ensures
            model_wf(g.model()),
            g.model().vertices.dom().finite(),
            g.model().edges.dom().finite(),
    {
        assert(g.model().vertices.dom() =~= g.vertices@.dom());
    }

    /// A fresh graph with no vertices and no edges.
    pub fn new() -> (g: Graph)
        ensures
            g.wf(),
            g.model() == empty_model(),
    {
        let g = Graph { vertices: HashMap::new(), order: Vec::new(), edges: HashMap::new() };
        proof {
            assert(g.model().vertices =~= empty_model().vertices);
            assert(g.model() == empty_model());
        }
        g
    }

    /// Whether a vertex with this identifier exists.
    pub fn vertex_exist(&self, id: u32) -> (r: bool)
        ensures
            r == self.model().vertices.contains_key(id),
    {
        self.vertices.contains_key(&id)
    }

    /// Whether an edge was inserted under exactly the ordered pair
    /// `(u_index, v_index)`.
    pub fn edge_exist(&self, u_index: u32, v_index: u32) -> (r: bool)
        ensures
            r == self.model().edges.contains_key(edge_key(u_index, v_index)),
    {
        let k = Self::make_edge_key(u_index, v_index);
        self.edges.contains_key(&k)
    }

    fn make_edge_key(u: u32, v: u32) -> (k: u64)
        ensures
            k == edge_key(u, v),
    {
        (u as u64) * 0x1_0000_0000 + (v as u64)
    }

    /// Insert a vertex under `id`; a duplicate identifier is silently
    /// skipped, retaining the vertex (and label) already stored.
    pub fn insert_vertex(&mut self, id: u32, label: String)
        requires
            old(self).wf(),
        ensures
            final(self).wf(),
            final(self).model() == spec_insert_vertex(old(self).model(), id, label@),
            final(self).model().vertices.contains_key(id),
            old(self).model().vertices.contains_key(id) ==> final(self).model() == old(
                self,
            ).model(),
            !old(self).model().vertices.contains_key(id) ==> final(self).model().vertices.len()
                == old(self).model().vertices.len() + 1,
    {
        proof {
            assert(self.model().vertices.dom() =~= self.vertices@.dom());
        }
        if self.vertex_exist(id) {
            return ;
        }
        let v = Vertex::new(id, label);
        self.vertices.insert(id, v);
        self.order.push(id);
        proof {
            let m1 = old(self).model();
            let m2 = self.model();
            assert(m2.vertices =~= spec_insert_vertex(m1, id, label@).vertices);
            assert(m2 == spec_insert_vertex(m1, id, label@));
            assert(m2.vertices.dom() =~= m1.vertices.dom().insert(id));
            assert(!old(self).order@.contains(id)) by {
                if old(self).order@.contains(id) {
                    let i = choose|i: int|
                        0 <= i < old(self).order@.len() && old(self).order@[i] == id;
                    assert(old(self).vertices@.contains_key(old(self).order@[i]));
                }
            }
            assert forall|p: int, q: int|
                0 <= p < q < self.order@.len() implies self.order@[p] != self.order@[q] by {
                if q == self.order@.len() - 1 {
                    assert(old(self).order@.contains(old(self).order@[p]));
                }
            }
            assert forall|id2: u32|
                self.vertices@.contains_key(id2) implies self.order@.contains(id2) by {
                if id2 == id {
                    assert(self.order@[self.order@.len() - 1] == id);
                } else {
                    assert(old(self).order@.contains(id2));
                    let i = choose|i: int|
                        0 <= i < old(self).order@.len() && old(self).order@[i] == id2;
                    assert(self.order@[i] == id2);
                }
            }
            assert forall|a: u32, b: u32|
                m2.vertices.contains_key(a) && #[trigger] m2.vertices[a].neighbors.contains(
                    b,
                ) implies m2.vertices.contains_key(b) && m2.vertices[b].neighbors.contains(a) by {
                if a != id {
                    assert(m1.vertices.contains_key(a));
                    assert(m1.vertices[a].neighbors.contains(b));
                }
            }
            assert forall|kk: u64| #[trigger] m2.edges.contains_key(kk) implies {
                let e = m2.edges[kk];
                &&& kk == edge_key(e.u, e.v)
                &&& m2.vertices.contains_key(e.u)
                &&& m2.vertices.contains_key(e.v)
                &&& m2.vertices[e.u].neighbors.contains(e.v)
                &&& m2.vertices[e.v].neighbors.contains(e.u)
            } by {
                assert(m1.edges.contains_key(kk));
                let e = m1.edges[kk];
                assert(m1.vertices.contains_key(e.u));
                assert(m1.vertices.contains_key(e.v));
            }
        }
    }

    /// Insert an edge between two existing vertices, storing it under the
    /// ordered pair `(u_index, v_index)` exactly as given and registering
    /// each endpoint in the other's adjacency list unless already adjacent.
    /// A missing endpoint makes the call a silent no-op; re-inserting the
    /// identical ordered pair overwrites the earlier edge and leaves
    /// adjacency and degrees untouched.
    pub fn insert_edge(&mut self, u_index: u32, v_index: u32, weight: Weight)
        requires
            old(self).wf(),
        ensures
            final(self).wf(),
            final(self).model() == spec_insert_edge(old(self).model(), u_index, v_index, weight),
            (!old(self).model().vertices.contains_key(u_index) || !old(
                self,
            ).model().vertices.contains_key(v_index)) ==> final(self).model() == old(self).model(),
    {
        if !self.vertex_exist(u_index) || !self.vertex_exist(v_index) {
            return ;
        }
        let k = Self::make_edge_key(u_index, v_index);
        if u_index == v_index {
            let mut x = self.vertices.remove(&u_index).unwrap();
            let e = Edge::new_loop(&mut x, weight);
            self.vertices.insert(u_index, x);
            self.edges.insert(k, e);
            proof {
                assert(self.vertices@ =~= old(self).vertices@.insert(u_index, x));
                self.lemma_insert_edge_post(*old(self), u_index, v_index, weight, e);
            }
        } else {
            let mut xu = self.vertices.remove(&u_index).unwrap();
            let mut xv = self.vertices.remove(&v_index).unwrap();
            let e = Edge::new(&mut xu, &mut xv, weight);
            self.vertices.insert(u_index, xu);
            self.vertices.insert(v_index, xv);
            self.edges.insert(k, e);
            proof {
                assert(self.vertices@ =~= old(self).vertices@.insert(u_index, xu).insert(
                    v_index,
                    xv,
                ));
                self.lemma_insert_edge_post(*old(self), u_index, v_index, weight, e);
            }
        }
    }

    /// The common closing argument of `insert_edge`: once the stored
    /// vertices match the model-level registration pointwise and the new
    /// edge sits in the edge map, the whole graph matches
    /// `spec_insert_edge` and is well formed again.
    proof fn lemma_insert_edge_post(self, prev: Graph, u_index: u32, v_index: u32, w: Weight, e: Edge)
        requires
            prev.wf(),
            prev.model().vertices.contains_key(u_index),
            prev.model().vertices.contains_key(v_index),
            e == (Edge { u: u_index, v: v_index, weight: w }),
            self.order@ == prev.order@,
            self.edges@ == prev.edges@.insert(edge_key(u_index, v_index), e),
            self.vertices@.dom() =~= prev.vertices@.dom(),
            forall|id: u32| #[trigger] self.vertices@.contains_key(id)
                ==> self.vertices@[id].index == id && self.vertices@[id].wf(),
            forall|id: u32| #[trigger] self.vertices@.contains_key(id)
                ==> self.vertices@[id].model() == spec_connect(
                    prev.model().vertices,
                    u_index,
                    v_index,
                )[id],
        ensures
            self.wf(),
            self.model() == spec_insert_edge(prev.model(), u_index, v_index, w),
    {
        let m1 = prev.model();
        let m2 = self.model();
        lemma_connect_wf(m1.vertices, u_index, v_index);
        let vm2 = spec_connect(m1.vertices, u_index, v_index);
        assert(m1.vertices.dom() =~= prev.vertices@.dom());
        assert(m2.vertices =~= vm2);
        assert(m2.edges == m1.edges.insert(edge_key(u_index, v_index), e));
        assert(m2 == spec_insert_edge(m1, u_index, v_index, w));
        assert forall|id2: u32|
            self.vertices@.contains_key(id2) implies self.order@.contains(id2) by {
            assert(prev.vertices@.contains_key(id2));
        }
        assert forall|kk: u64| #[trigger] m2.edges.contains_key(kk) implies {
            let e2 = m2.edges[kk];
            &&& kk == edge_key(e2.u, e2.v)
            &&& m2.vertices.contains_key(e2.u)
            &&& m2.vertices.contains_key(e2.v)
            &&& m2.vertices[e2.u].neighbors.contains(e2.v)
            &&& m2.vertices[e2.v].neighbors.contains(e2.u)
        } by {
            if kk == edge_key(u_index, v_index) {
                assert(m2.vertices[u_index].neighbors.contains(v_index));
                assert(m2.vertices[v_index].neighbors.contains(u_index));
            } else {
                assert(m1.edges.contains_key(kk));
                let e2 = m1.edges[kk];
                assert(m1.vertices.contains_key(e2.u));
                assert(m1.vertices.contains_key(e2.v));
                assert(m1.vertices[e2.u].neighbors.contains(e2.v));
                assert(m1.vertices[e2.v].neighbors.contains(e2.u));
                assert(m2.vertices[e2.u].neighbors.contains(e2.v));
                assert(m2.vertices[e2.v].neighbors.contains(e2.u));
            }
        }
    }

    /// The label of the vertex stored under `index`.
    pub fn label(&self, index: u32) -> (r: Result<String, GraphError>)
        ensures
            match r {
                Ok(l) => self.model().vertices.contains_key(index) && l@
                    == self.model().vertices[index].label,
                Err(e) => !self.model().vertices.contains_key(index) && e
                    == GraphError::VertexNotFound(index),
            },
    {
        match self.vertices.get(&index) {
            Some(v) => Ok(v.label.clone()),
            None => Err(GraphError::VertexNotFound(index)),
        }
    }

    /// The degree of the vertex stored under `index`: the number of
    /// adjacency entries incident to it.
    pub fn degree(&self, index: u32) -> (r: Result<usize, GraphError>)
        requires
            self.wf(),
        ensures
            match r {
                Ok(d) => self.model().vertices.contains_key(index) && d
                    == self.model().vertices[index].neighbors.len(),
                Err(e) => !self.model().vertices.contains_key(index) && e
                    == GraphError::VertexNotFound(index),
            },
    {
        match self.vertices.get(&index) {
            Some(v) => Ok(v.degree),
            None => Err(GraphError::VertexNotFound(index)),
        }
    }

    /// The weight of the edge between `u_index` and `v_index`; the two
    /// identifiers are interchangeable here, reflecting that edges are
    /// logically undirected.
    pub fn weight(&self, u_index: u32, v_index: u32) -> (r: Result<Weight, GraphError>)
        ensures
            r == spec_weight(self.model(), u_index, v_index),
    {
        let k1 = Self::make_edge_key(u_index, v_index);
        if let Some(e) = self.edges.get(&k1) {
            return Ok(e.weight());
        }
        let k2 = Self::make_edge_key(v_index, u_index);
        if let Some(e) = self.edges.get(&k2) {
            return Ok(e.weight());
        }
        Err(GraphError::EdgeNotFound(u_index, v_index))
    }

    /// The number of vertices in the graph.
    pub fn vertices_amount(&self) -> (n: usize)
        ensures
            n == self.model().vertices.len(),
    {
        proof {
            assert(self.model().vertices.dom() =~= self.vertices@.dom());
        }
        self.vertices.len()
    }

    /// The number of stored edges, counted by distinct ordered pair keys.
    pub fn edges_amount(&self) -> (n: usize)
        ensures
            n == self.model().edges.len(),
    {
        self.edges.len()
    }

    /// The identifiers of all vertices, in insertion order, each exactly
    /// once.
    pub fn vertex_ids(&self) -> (r: &Vec<u32>)
        requires
            self.wf(),
        ensures
            r@.no_duplicates(),
            forall|i: int| 0 <= i < r@.len() ==> self.model().vertices.contains_key(
                #[trigger] r@[i],
            ),
            forall|id: u32| #[trigger] self.model().vertices.contains_key(id) ==> r@.contains(id),
    {
        &self.order
    }

    /// Read access to the vertex stored under `id`.
    pub fn get_vertex(&self, id: u32) -> (r: Option<&Vertex>)
        requires
            self.wf(),
        ensures
            match r {
                Some(x) => {
                    &&& self.model().vertices.contains_key(id)
                    &&& x.index == id
                    &&& x.wf()
                    &&& x.model() == self.model().vertices[id]
                },
                None => !self.model().vertices.contains_key(id),
            },
    {
        self.vertices.get(&id)
    }
}

/// Law: inserting a vertex under a fresh identifier makes the vertex exist
/// with exactly the given label and empty adjacency, grows the vertex count
/// by one, and leaves the edges untouched.
pub proof fn lemma_insert_vertex_fresh(m: GraphModel, id: u32, label: Seq<char>)
    requires
        !m.vertices.contains_key(id),
        m.vertices.dom().finite(),
    ensures
        ({
            let m2 = spec_insert_vertex(m, id, label);
            &&& m2.vertices.contains_key(id)
            &&& m2.vertices[id].label == label
            &&& m2.vertices[id].neighbors == Seq::<u32>::empty()
            &&& m2.vertices.len() == m.vertices.len() + 1
            &&& m2.edges == m.edges
        }),
{
}

/// Law: inserting a vertex under an identifier already present leaves the
/// whole graph unchanged; in particular the vertex count and the label
/// stored earlier are retained and the second label is discarded.
pub proof fn lemma_insert_vertex_duplicate(m: GraphModel, id: u32, label: Seq<char>)
    requires
        m.vertices.contains_key(id),
    ensures
        spec_insert_vertex(m, id, label) == m,
        spec_insert_vertex(m, id, label).vertices[id].label == m.vertices[id].label,
{
}

/// Law: inserting an edge between existing, distinct, not yet connected
/// vertices raises both degrees by exactly one, makes the edge exist under
/// its ordered pair, and makes the weight readable in either direction.
pub proof fn lemma_insert_edge_fresh(m: GraphModel, u: u32, v: u32, w: Weight)
    requires
        model_wf(m),
        m.vertices.contains_key(u),
        m.vertices.contains_key(v),
        u != v,
        !m.vertices[u].neighbors.contains(v),
        !m.edges.contains_key(edge_key(u, v)),
        !m.edges.contains_key(edge_key(v, u)),
    ensures
        ({
            let m2 = spec_insert_edge(m, u, v, w);
            &&& m2.vertices[u].neighbors.len() == m.vertices[u].neighbors.len() + 1
            &&& m2.vertices[v].neighbors.len() == m.vertices[v].neighbors.len() + 1
            &&& m2.edges.contains_key(edge_key(u, v))
            &&& spec_weight(m2, u, v) == Ok::<Weight, GraphError>(w)
            &&& spec_weight(m2, v, u) == Ok::<Weight, GraphError>(w)
        }),
{
    assert(!m.vertices[v].neighbors.contains(u));
    lemma_edge_key_injective(v, u, u, v);
}

/// Law: inserting an edge when either endpoint is missing changes nothing;
/// in particular the edge count is unchanged.
pub proof fn lemma_insert_edge_missing_endpoint(m: GraphModel, u: u32, v: u32, w: Weight)
    requires
        !m.vertices.contains_key(u) || !m.vertices.contains_key(v),
    ensures
        spec_insert_edge(m, u, v, w) == m,
        spec_insert_edge(m, u, v, w).edges.len() == m.edges.len(),
{
}

} // verus!
