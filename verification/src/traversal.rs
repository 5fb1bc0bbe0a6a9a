use vstd::prelude::*;

use std::collections::HashMap;

use crate::graph::{Graph, GraphError};
use crate::vertex::VertexModel;

verus! {

/// Whether `v` can be reached from `s` in at most `n` adjacency hops.
pub open spec fn reach_within(vm: Map<u32, VertexModel>, s: u32, v: u32, n: nat) -> bool
    decreases n,
{
    if v == s {
        true
    } else if n == 0 {
        false
    } else {
        exists|u: u32|
            #[trigger] vm.contains_key(u) && vm[u].neighbors.contains(v) && reach_within(
                vm,
                s,
                u,
                (n - 1) as nat,
            )
    }
}

/// Whether `v` can be reached from `s` in any number of hops.
pub open spec fn reachable(vm: Map<u32, VertexModel>, s: u32, v: u32) -> bool {
    exists|n: nat| reach_within(vm, s, v, n)
}

/// What the traversal's distance map promises: one entry per vertex; the
/// sentinel `-1` exactly on the vertices unreachable from `s`; every other
/// entry the exact shortest hop count from `s`.
pub open spec fn valid_distances(vm: Map<u32, VertexModel>, s: u32, d: Map<u32, i64>) -> bool {
    &&& d.dom() == vm.dom()
    &&& forall|v: u32| #[trigger] d.contains_key(v) ==> -1 <= d[v]
    &&& forall|v: u32| #[trigger] d.contains_key(v) ==> (d[v] == -1 <==> !reachable(vm, s, v))
    &&& forall|v: u32| #[trigger] d.contains_key(v) && d[v] >= 0 ==> reach_within(
        vm,
        s,
        v,
        d[v] as nat,
    ) && (forall|m: nat| m < d[v] ==> !reach_within(vm, s, v, m))
}

/// A finite set of 32-bit identifiers cannot hold more members than there
/// are 32-bit values.
proof fn lemma_u32_set_bound(s: Set<u32>)
    requires
        s.finite(),
    ensures
        s.len() <= 0x1_0000_0000,
{
    let f = |x: u32| x as int;
    let si = s.map(f);
    vstd::set_lib::lemma_map_size(s, si, f);
    vstd::set_lib::lemma_int_range(0, 0x1_0000_0000);
    assert forall|y: int| si.contains(y) implies vstd::set_lib::set_int_range(
        0,
        0x1_0000_0000,
    ).contains(y) by {
        let x = choose|x: u32| s.contains(x) && f(x) == y;
        assert(0 <= (x as int) && (x as int) < 0x1_0000_0000);
    }
    vstd::set_lib::lemma_len_subset(si, vstd::set_lib::set_int_range(0, 0x1_0000_0000));
}

/// A duplicate-free sequence drawn from a finite set is no longer than the
/// set's cardinality.
proof fn lemma_queue_bound(q: Seq<u32>, dom: Set<u32>)
    requires
        q.no_duplicates(),
        forall|k: int| 0 <= k < q.len() ==> dom.contains(#[trigger] q[k]),
        dom.finite(),
    ensures
        q.len() <= dom.len(),
{
    q.unique_seq_to_set();
    assert forall|x: u32| q.to_set().contains(x) implies dom.contains(x) by {
        let k = choose|k: int| 0 <= k < q.len() && q[k] == x;
        assert(dom.contains(q[k]));
    }
    vstd::set_lib::lemma_len_subset(q.to_set(), dom);
}

/// The closing argument of the traversal: once the queue is exhausted and
/// every discovered vertex has had its neighbors discovered at no more than
/// one extra hop, every vertex reachable within `n` hops is discovered at a
/// recorded distance of at most `n`.
proof fn lemma_bfs_complete(
    vm: Map<u32, VertexModel>,
    s: u32,
    d: Map<u32, i64>,
    q: Seq<u32>,
    v: u32,
    n: nat,
)
    requires
        d.contains_key(s),
        d[s] == 0,
        forall|w: u32| #[trigger] d.contains_key(w) ==> (d[w] >= 0 <==> q.contains(w)),
        forall|w: u32| vm.contains_key(w) <==> #[trigger] d.contains_key(w),
        forall|k: int, w: u32|
            0 <= k < q.len() && #[trigger] vm[q[k]].neighbors.contains(w) ==> d.contains_key(w)
                && d[w] >= 0 && d[w] <= d[q[k]] + 1,
        forall|k: int| 0 <= k < q.len() ==> d.contains_key(#[trigger] q[k]),
        reach_within(vm, s, v, n),
    ensures
        d.contains_key(v),
        0 <= d[v] <= n,
    decreases n,
{
    if v == s {
    } else {
        let u = choose|u: u32|
            #[trigger] vm.contains_key(u) && vm[u].neighbors.contains(v) && reach_within(
                vm,
                s,
                u,
                (n - 1) as nat,
            );
        lemma_bfs_complete(vm, s, d, q, u, (n - 1) as nat);
        let k = choose|k: int| 0 <= k < q.len() && q[k] == u;
        assert(vm[q[k]].neighbors.contains(v));
    }
}

impl Graph {
    /// Distance-labeling traversal from `start`, expanding the frontier in
    /// first-in, first-out order, so the result maps every vertex of the
    /// graph to its exact shortest unweighted hop count from `start`, or to
    /// the sentinel `-1` where no path exists.  A missing start vertex is
    /// reported as `VertexNotFound`.
    #[verifier::loop_isolation(false)]
    pub fn dfs(&self, start: u32) -> (r: Result<HashMap<u32, i64>, GraphError>)
        requires
            self.wf(),
        ensures
            match r {
                Ok(d) => self.model().vertices.contains_key(start) && valid_distances(
                    self.model().vertices,
                    start,
                    d@,
                ),
                Err(e) => !self.model().vertices.contains_key(start) && e
                    == GraphError::VertexNotFound(start),
            },
    {
        let ghost vm = self.model().vertices;
        proof {
            Graph::lemma_wf_model(*self);
            lemma_u32_set_bound(vm.dom());
        }
        if !self.vertex_exist(start) {
            return Err(GraphError::VertexNotFound(start));
        }
        let ids = self.vertex_ids();
        let mut dist: HashMap<u32, i64> = HashMap::new();
        let mut i: usize = 0;
        while i < ids.len()
            invariant
                i <= ids@.len(),
                forall|v: u32|
                    #![trigger dist@.contains_key(v)]
                    dist@.contains_key(v) <==> (exists|j: int| 0 <= j < i && ids@[j] == v),
                forall|v: u32| #[trigger] dist@.contains_key(v) ==> dist@[v] == -1i64,
            decreases ids@.len() - i,
        {
            dist.insert(ids[i], -1);
            proof {
                assert(dist@.contains_key(ids@[i as int]));
            }
            i += 1;
        }
        proof {
            assert forall|v: u32| dist@.contains_key(v) implies vm.contains_key(v) by {
                let j = choose|j: int| 0 <= j < ids@.len() && ids@[j] == v;
                assert(vm.contains_key(ids@[j]));
            }
            assert forall|v: u32| vm.contains_key(v) implies dist@.contains_key(v) by {
                assert(ids@.contains(v));
            }
            assert(dist@.dom() =~= vm.dom());
        }
        dist.insert(start, 0);
        let mut queue: Vec<u32> = Vec::new();
        queue.push(start);
        let mut head: usize = 0;
        proof {
            assert(dist@.dom() =~= vm.dom());
            assert(queue@[0] == start);
        }
        while head < queue.len()
            invariant
                dist@.dom() == vm.dom(),
                dist@[start] == 0i64,
                forall|v: u32| #[trigger] dist@.contains_key(v) ==> -1 <= dist@[v]
                    < queue@.len(),
                head <= queue@.len(),
                queue@.no_duplicates(),
                forall|k: int| 0 <= k < queue@.len() ==> vm.contains_key(#[trigger] queue@[k]),
                forall|v: u32| vm.contains_key(v) ==> (dist@[v] >= 0 <==> queue@.contains(v)),
                forall|v: u32|
                    #[trigger] vm.contains_key(v) && dist@[v] >= 0 ==> reach_within(
                        vm,
                        start,
                        v,
                        dist@[v] as nat,
                    ),
                forall|k: int, w: u32|
                    0 <= k < head && #[trigger] vm[queue@[k]].neighbors.contains(w)
                        ==> dist@.contains_key(w) && dist@[w] >= 0 && dist@[w] <= dist@[queue@[k]]
                        + 1,
                forall|k: int, l: int|
                    0 <= k <= l < queue@.len() ==> dist@[#[trigger] queue@[k]] <= dist@[
                        #[trigger] queue@[l]
                    ],
                forall|k: int|
                    0 <= k < queue@.len() && head < queue@.len() ==> dist@[#[trigger] queue@[k]]
                        <= dist@[queue@[head as int]] + 1,
            decreases vm.dom().len() - head,
        {
            proof {
                lemma_queue_bound(queue@, vm.dom());
            }
            let u = queue[head];
            let vx = self.get_vertex(u).unwrap();
            let du = *dist.get(&u).unwrap();
            proof {
                assert(queue@.contains(u));
            }
            let mut j: usize = 0;
            while j < vx.neighbors.len()
                invariant
                    j <= vx.neighbors@.len(),
                    vx.model() == vm[u],
                    head < queue@.len(),
                    queue@[head as int] == u,
                    du == dist@[u],
                    0 <= du,
                    dist@.dom() == vm.dom(),
                    dist@[start] == 0i64,
                    forall|v: u32| #[trigger] dist@.contains_key(v) ==> -1 <= dist@[v]
                        < queue@.len(),
                    queue@.no_duplicates(),
                    forall|k: int| 0 <= k < queue@.len() ==> vm.contains_key(
                        #[trigger] queue@[k],
                    ),
                    forall|v: u32| vm.contains_key(v) ==> (dist@[v] >= 0 <==> queue@.contains(v)),
                    forall|v: u32|
                        #[trigger] vm.contains_key(v) && dist@[v] >= 0 ==> reach_within(
                            vm,
                            start,
                            v,
                            dist@[v] as nat,
                        ),
                    forall|k: int, w: u32|
                        0 <= k < head && #[trigger] vm[queue@[k]].neighbors.contains(w)
                            ==> dist@.contains_key(w) && dist@[w] >= 0 && dist@[w]
                            <= dist@[queue@[k]] + 1,
                    forall|jj: int|
                        0 <= jj < j ==> dist@.contains_key(#[trigger] vx.neighbors@[jj])
                            && dist@[vx.neighbors@[jj]] >= 0 && dist@[vx.neighbors@[jj]] <= du + 1,
                    forall|k: int, l: int|
                        0 <= k <= l < queue@.len() ==> dist@[#[trigger] queue@[k]] <= dist@[
                            #[trigger] queue@[l]
                        ],
                    forall|k: int| 0 <= k < queue@.len() ==> dist@[#[trigger] queue@[k]] <= du
                        + 1,
                decreases vx.neighbors@.len() - j,
            {
                let w = vx.neighbors[j];
                proof {
                    assert(vm[u].neighbors.contains(w)) by {
                        assert(vm[u].neighbors[j as int] == w);
                    }
                    assert(vm.contains_key(w));
                }
                let dw = *dist.get(&w).unwrap();
                if dw == -1 {
                    proof {
                        lemma_queue_bound(queue@, vm.dom());
                    }
                    let ghost d0 = dist@;
                    let ghost q0 = queue@;
                    dist.insert(w, du + 1);
                    queue.push(w);
                    proof {
                        assert(queue@[queue@.len() - 1] == w);
                        assert forall|v: u32| vm.contains_key(v) implies (dist@[v] >= 0
                            <==> queue@.contains(v)) by {
                            if v != w {
                                if queue@.contains(v) {
                                    let k = choose|k: int|
                                        0 <= k < queue@.len() && queue@[k] == v;
                                    assert(k < queue@.len() - 1);
                                    assert(q0[k] == v);
                                    assert(q0.contains(v));
                                } else if q0.contains(v) {
                                    let k = choose|k: int| 0 <= k < q0.len() && q0[k] == v;
                                    assert(queue@[k] == v);
                                    assert(queue@.contains(v));
                                }
                            }
                        }
                        assert forall|p: int, q: int|
                            0 <= p < q < queue@.len() implies queue@[p] != queue@[q] by {
                            if q == queue@.len() - 1 {
                                assert(q0[p] == queue@[p]);
                                assert(q0.contains(q0[p]));
                                assert(d0[q0[p]] >= 0);
                            }
                        }
                        assert(reach_within(vm, start, w, (du + 1) as nat)) by {
                            assert(vm.contains_key(u) && vm[u].neighbors.contains(w)
                                && reach_within(vm, start, u, (((du + 1) as nat) - 1) as nat));
                        }
                        assert forall|k: int, l: int|
                            0 <= k <= l < queue@.len() implies dist@[queue@[k]] <= dist@[
                            queue@[l]
                        ] by {
                            assert(q0.contains(q0[k]) || k == queue@.len() - 1);
                            if l == queue@.len() - 1 && k < l {
                                assert(q0.contains(q0[k]));
                                assert(d0[q0[k]] >= 0);
                                assert(dist@[queue@[k]] <= du + 1);
                            }
                        }
                    }
                } else {
                    proof {
                        assert(queue@.contains(w));
                        let k = choose|k: int| 0 <= k < queue@.len() && queue@[k] == w;
                        assert(dist@[queue@[k]] <= du + 1);
                        assert(dist@[w] >= 0 && dist@[w] <= du + 1);
                    }
                }
                j += 1;
            }
            head += 1;
            proof {
                assert forall|k: int|
                    0 <= k < queue@.len() && head < queue@.len() implies dist@[queue@[k]] <= dist@[
                    queue@[head as int]
                ] + 1 by {
                    assert(dist@[queue@[head - 1]] <= dist@[queue@[head as int]]);
                    assert(dist@[queue@[k]] <= du + 1);
                }
                assert forall|k: int, w: u32|
                    0 <= k < head && #[trigger] vm[queue@[k]].neighbors.contains(
                        w,
                    ) implies dist@.contains_key(w) && dist@[w] >= 0 && dist@[w]
                    <= dist@[queue@[k]] + 1 by {
                    if k == head - 1 {
                        let jj = choose|jj: int|
                            0 <= jj < vm[u].neighbors.len() && vm[u].neighbors[jj] == w;
                        assert(vx.neighbors@[jj] == w);
                    }
                }
            }
        }
        proof {
            assert forall|v: u32| #[trigger] dist@.contains_key(v) implies (dist@[v] == -1
                <==> !reachable(vm, start, v)) by {
                if dist@[v] >= 0 {
                    assert(reach_within(vm, start, v, dist@[v] as nat));
                    assert(reachable(vm, start, v));
                } else {
                    if reachable(vm, start, v) {
                        let n = choose|n: nat| reach_within(vm, start, v, n);
                        lemma_bfs_complete(vm, start, dist@, queue@, v, n);
                    }
                }
            }
            assert forall|v: u32|
                #[trigger] dist@.contains_key(v) && dist@[v] >= 0 implies reach_within(
                vm,
                start,
                v,
                dist@[v] as nat,
            ) && (forall|m: nat| m < dist@[v] ==> !reach_within(vm, start, v, m)) by {
                assert forall|m: nat| m < dist@[v] implies !reach_within(vm, start, v, m) by {
                    if reach_within(vm, start, v, m) {
                        lemma_bfs_complete(vm, start, dist@, queue@, v, m);
                    }
                }
            }
        }
        Ok(dist)
    }
}

/// Law: a traversal started at a vertex with no adjacency labels the start
/// with distance zero and every other vertex with the unreached sentinel.
pub proof fn lemma_traversal_isolated_start(vm: Map<u32, VertexModel>, s: u32, d: Map<u32, i64>)
    requires
        valid_distances(vm, s, d),
        vm.contains_key(s),
        vm[s].neighbors.len() == 0,
    ensures
        d[s] == 0,
        forall|v: u32| #[trigger] d.contains_key(v) && v != s ==> d[v] == -1,
{
    assert(reach_within(vm, s, s, 0));
    assert(reachable(vm, s, s));
    assert(d.contains_key(s));
    assert(d[s] >= 0);
    if d[s] > 0 {
        assert(!reach_within(vm, s, s, 0));
    }
    assert forall|v: u32| #[trigger] d.contains_key(v) && v != s implies d[v] == -1 by {
        assert forall|n: nat| !reach_within(vm, s, v, n) by {
            lemma_isolated_unreachable(vm, s, v, n);
        }
        assert(!reachable(vm, s, v));
    }
}

/// From a start vertex with no adjacency, no other vertex is reachable in
/// any number of hops.
proof fn lemma_isolated_unreachable(vm: Map<u32, VertexModel>, s: u32, v: u32, n: nat)
    requires
        vm.contains_key(s),
        vm[s].neighbors.len() == 0,
        v != s,
    ensures
        !reach_within(vm, s, v, n),
    decreases n,
{
    if n > 0 && reach_within(vm, s, v, n) {
        let u = choose|u: u32|
            #[trigger] vm.contains_key(u) && vm[u].neighbors.contains(v) && reach_within(
                vm,
                s,
                u,
                (n - 1) as nat,
            );
        if u == s {
            assert(vm[s].neighbors.contains(v));
        } else {
            lemma_isolated_unreachable(vm, s, u, (n - 1) as nat);
        }
    }
}

/// Law: the traversal's distance map is determined by the graph and the
/// start vertex alone, so repeating an unmodified traversal reproduces it
/// exactly.
pub proof fn lemma_traversal_deterministic(
    vm: Map<u32, VertexModel>,
    s: u32,
    d1: Map<u32, i64>,
    d2: Map<u32, i64>,
)
    requires
        valid_distances(vm, s, d1),
        valid_distances(vm, s, d2),
    ensures
        d1 == d2,
{
    assert forall|v: u32| d1.contains_key(v) implies d1[v] == d2[v] by {
        assert(d2.contains_key(v));
        if d1[v] == -1 {
            assert(!reachable(vm, s, v));
            assert(d2[v] == -1);
        } else {
            assert(reach_within(vm, s, v, d1[v] as nat));
            assert(reachable(vm, s, v));
            assert(d2[v] >= 0);
            if d2[v] < d1[v] {
                assert(reach_within(vm, s, v, d2[v] as nat));
                assert(!reach_within(vm, s, v, d2[v] as nat));
            }
            if d1[v] < d2[v] {
                assert(reach_within(vm, s, v, d1[v] as nat));
                assert(!reach_within(vm, s, v, d1[v] as nat));
            }
        }
    }
    assert(d1 =~= d2);
}

} // verus!
