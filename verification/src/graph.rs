//! Dense-id vertex set with per-vertex activation flags, adjacency lists,
//! and live active-neighbor counts kept consistent under deactivation and
//! reactivation.

use vstd::prelude::*;

use crate::counts::{
    count_active, count_true, lemma_count_active_congruence, lemma_count_active_le_len,
    lemma_count_active_push, lemma_count_active_update_false, lemma_count_active_update_true,
    lemma_count_true_le, lemma_count_true_pos_at, lemma_count_true_push, lemma_count_true_update,
    lemma_occ_absent,
    lemma_occ_le_count_active, lemma_occ_push, lemma_occ_take_all, lemma_occ_take_le,
    lemma_occ_take_step, occ,
};

verus! {

/// Undirected graph over dense vertex ids with reversible deactivation.
///
/// `neighbors[v]` lists every structurally adjacent id of `v`, irrespective
/// of activation.  `degrees[v]` caches the number of entries of
/// `neighbors[v]` that refer to an active vertex.  `vertices` counts the
/// active vertices.
pub struct Graph {
    pub neighbors: Vec<Vec<usize>>,
    pub degrees: Vec<usize>,
    pub valid: Vec<bool>,
    pub names: Vec<String>,
    pub vertices: usize,
}

impl Graph {
    /// Total number of vertices ever added, active or not.
    pub open spec fn n(self) -> int {
        self.valid@.len() as int
    }

    /// Adjacency list of `v`, as a sequence of ids.
    pub open spec fn nb(self, v: int) -> Seq<usize> {
        self.neighbors@[v]@
    }

    /// Well-formedness: parallel arrays agree in length, adjacency entries
    /// are in range and symmetric as multisets, every cached degree equals
    /// the count of active entries of its adjacency list, and `vertices`
    /// counts the active flags.
    pub open spec fn wf(self) -> bool {
        &&& self.neighbors@.len() == self.n()
        &&& self.degrees@.len() == self.n()
        &&& self.names@.len() == self.n()
        &&& forall|v: int, i: int|
            0 <= v < self.n() && 0 <= i < self.nb(v).len() ==> 0 <= #[trigger] self.nb(v)[i]
                < self.n()
        &&& forall|v: int, u: int|
            0 <= v < self.n() && 0 <= u < self.n() ==> #[trigger] occ(self.nb(v), u) == occ(
                self.nb(u),
                v,
            )
        &&& forall|v: int|
            0 <= v < self.n() ==> #[trigger] self.degrees@[v] == count_active(
                self.nb(v),
                self.valid@,
            )
        &&& self.vertices == count_true(self.valid@, self.n())
    }

    /// The graph with no vertices.
    pub fn empty() -> (g: Graph)
        ensures
            g.wf(),
            g.n() == 0,
    {
        Graph {
            neighbors: Vec::new(),
            degrees: Vec::new(),
            valid: Vec::new(),
            names: Vec::new(),
            vertices: 0,
        }
    }

    /// Appends a fresh active vertex with the given label and no edges,
    /// and returns its id: the next dense id.
    pub fn add_vertex(&mut self, name: String) -> (id: usize)
        requires
            old(self).wf(),
        ensures
            id == old(self).n(),
            final(self).wf(),
            final(self).n() == old(self).n() + 1,
            final(self).valid@ == old(self).valid@.push(true),
            final(self).degrees@ == old(self).degrees@.push(0usize),
            final(self).names@.len() == old(self).names@.len() + 1,
            final(self).names@.last()@ == name@,
            forall|w: int|
                0 <= w < old(self).n() ==> final(self).names@[w] == old(self).names@[w],
            final(self).nb(old(self).n()).len() == 0,
            forall|w: int|
                0 <= w < old(self).n() ==> final(self).neighbors@[w] == old(self).neighbors@[w],
            final(self).vertices == old(self).vertices + 1,
    {
        let ghost oldg = *self;
        let id = self.valid.len();
        proof {
            vstd::std_specs::vec::axiom_spec_len(&self.valid);
            lemma_count_true_le(self.valid@, self.n());
        }
        self.neighbors.push(Vec::new());
        self.degrees.push(0);
        self.valid.push(true);
        self.names.push(name);
        proof {
            vstd::std_specs::vec::axiom_spec_len(&self.valid);
        }
        self.vertices = self.vertices + 1;
        proof {
            let n0 = oldg.n();
            lemma_count_true_push(oldg.valid@, true);
            assert forall|v: int, u: int|
                0 <= v < self.n() && 0 <= u < self.n() implies #[trigger] occ(self.nb(v), u) == occ(
                self.nb(u),
                v,
            ) by {
                if v < n0 && u < n0 {
                    assert(occ(oldg.nb(v), u) == occ(oldg.nb(u), v));
                } else {
                    if v < n0 {
                        assert forall|i: int| 0 <= i < self.nb(v).len() implies #[trigger] self.nb(
                            v,
                        )[i] != u by {
                            assert(self.nb(v)[i] == oldg.nb(v)[i]);
                            assert(0 <= oldg.nb(v)[i] < n0);
                        }
                        lemma_occ_absent(self.nb(v), u);
                    }
                    if u < n0 {
                        assert forall|i: int| 0 <= i < self.nb(u).len() implies #[trigger] self.nb(
                            u,
                        )[i] != v by {
                            assert(self.nb(u)[i] == oldg.nb(u)[i]);
                            assert(0 <= oldg.nb(u)[i] < n0);
                        }
                        lemma_occ_absent(self.nb(u), v);
                    }
                }
            }
            assert forall|v: int, i: int|
                0 <= v < self.n() && 0 <= i < self.nb(v).len() implies 0 <= #[trigger] self.nb(
                v,
            )[i] < self.n() by {
                if v < n0 {
                    assert(self.nb(v)[i] == oldg.nb(v)[i]);
                    assert(0 <= oldg.nb(v)[i] < n0);
                }
            }
            assert forall|v: int| 0 <= v < self.n() implies #[trigger] self.degrees@[v]
                == count_active(self.nb(v), self.valid@) by {
                if v < n0 {
                    assert forall|i: int| 0 <= i < self.nb(v).len() implies oldg.valid@[#[trigger] self.nb(
                        v,
                    )[i] as int] == self.valid@[self.nb(v)[i] as int] by {
                        assert(self.nb(v)[i] == oldg.nb(v)[i]);
                        assert(0 <= oldg.nb(v)[i] < n0);
                    }
                    lemma_count_active_congruence(self.nb(v), oldg.valid@, self.valid@);
                    assert(self.nb(v) == oldg.nb(v));
                }
            }
            assert(self.wf());
        }
        id
    }

    /// Adds the undirected edge `{v, u}`; both endpoints must be active.
    /// Each endpoint is appended to the other's adjacency list and both
    /// cached degrees rise by one (by two for a self-loop).
    pub fn add_edge(&mut self, v: usize, u: usize)
        requires
            old(self).wf(),
            v < old(self).n(),
            u < old(self).n(),
            old(self).valid@[v as int],
            old(self).valid@[u as int],
        ensures
            final(self).wf(),
            final(self).n() == old(self).n(),
            final(self).valid@ == old(self).valid@,
            final(self).names@ == old(self).names@,
            final(self).vertices == old(self).vertices,
            final(self).neighbors@.len() == old(self).neighbors@.len(),
            v != u ==> final(self).nb(v as int) == old(self).nb(v as int).push(u),
            v != u ==> final(self).nb(u as int) == old(self).nb(u as int).push(v),
            v == u ==> final(self).nb(v as int) == old(self).nb(v as int).push(u).push(v),
            forall|w: int|
                0 <= w < old(self).n() && w != v && w != u ==> final(self).neighbors@[w] == old(
                    self,
                ).neighbors@[w],
            final(self).degrees@.len() == old(self).degrees@.len(),
            v != u ==> final(self).degrees@[v as int] == old(self).degrees@[v as int] + 1,
            v != u ==> final(self).degrees@[u as int] == old(self).degrees@[u as int] + 1,
            v == u ==> final(self).degrees@[v as int] == old(self).degrees@[v as int] + 2,
            forall|w: int|
                0 <= w < old(self).n() && w != v && w != u ==> final(self).degrees@[w] == old(
                    self,
                ).degrees@[w],
    {
        let ghost oldg = *self;
        self.neighbors[v].push(u);
        self.neighbors[u].push(v);
        proof {
            vstd::std_specs::vec::axiom_spec_len(&self.neighbors@[v as int]);
            vstd::std_specs::vec::axiom_spec_len(&self.neighbors@[u as int]);
            lemma_count_active_le_len(self.nb(v as int), oldg.valid@);
            lemma_count_active_le_len(self.nb(u as int), oldg.valid@);
            assert forall|w: int| 0 <= w < oldg.n() implies count_active(
                self.nb(w),
                oldg.valid@,
            ) <= self.nb(w).len() by {
                lemma_count_active_le_len(self.nb(w), oldg.valid@);
            }
            assert forall|w: int| 0 <= w < oldg.n() implies #[trigger] count_active(
                self.nb(w),
                oldg.valid@,
            ) == count_active(oldg.nb(w), oldg.valid@) + (if w == v {
                1nat
            } else {
                0nat
            }) + (if w == u {
                1nat
            } else {
                0nat
            }) by {
                if w == v && w == u {
                    lemma_count_active_push(oldg.nb(w), oldg.valid@, u);
                    lemma_count_active_push(oldg.nb(w).push(u), oldg.valid@, v);
                } else if w == v {
                    lemma_count_active_push(oldg.nb(w), oldg.valid@, u);
                } else if w == u {
                    lemma_count_active_push(oldg.nb(w), oldg.valid@, v);
                }
            }
        }
        let dv = self.degrees[v];
        self.degrees[v] = dv + 1;
        let du = self.degrees[u];
        self.degrees[u] = du + 1;
        proof {
            assert forall|a: int, b: int|
                0 <= a < self.n() && 0 <= b < self.n() implies #[trigger] occ(self.nb(a), b) == occ(
                self.nb(b),
                a,
            ) by {
                lemma_occ_push(oldg.nb(v as int), u, b);
                lemma_occ_push(oldg.nb(v as int), u, a);
                lemma_occ_push(oldg.nb(u as int), v, b);
                lemma_occ_push(oldg.nb(u as int), v, a);
                lemma_occ_push(oldg.nb(v as int).push(u), v, b);
                lemma_occ_push(oldg.nb(v as int).push(u), v, a);
                assert(occ(oldg.nb(a), b) == occ(oldg.nb(b), a));
            }
            assert forall|a: int, i: int|
                0 <= a < self.n() && 0 <= i < self.nb(a).len() implies 0 <= #[trigger] self.nb(a)[i]
                < self.n() by {
                if a == v || a == u {
                } else {
                    assert(self.nb(a)[i] == oldg.nb(a)[i]);
                }
            }
            assert forall|a: int| 0 <= a < self.n() implies #[trigger] self.degrees@[a]
                == count_active(self.nb(a), self.valid@) by {
                assert(count_active(self.nb(a), oldg.valid@) == count_active(oldg.nb(a), oldg.valid@)
                    + (if a == v {
                    1nat
                } else {
                    0nat
                }) + (if a == u {
                    1nat
                } else {
                    0nat
                }));
            }
            assert(self.wf());
        }
    }

    /// Deactivates `v`: every entry of `v`'s adjacency list loses one from
    /// its cached degree, the active count falls by one and `v`'s flag is
    /// cleared.  Deactivating an already inactive vertex is a tolerated
    /// no-op.
    pub fn invalidate_vertex(&mut self, v: usize)
        requires
            old(self).wf(),
            v < old(self).n(),
        ensures
            final(self).wf(),
            final(self).neighbors == old(self).neighbors,
            final(self).names == old(self).names,
            !old(self).valid@[v as int] ==> *final(self) == *old(self),
            old(self).valid@[v as int] ==> final(self).valid@ == old(self).valid@.update(
                v as int,
                false,
            ),
            old(self).valid@[v as int] ==> final(self).vertices == old(self).vertices - 1,
            final(self).degrees@.len() == old(self).degrees@.len(),
            old(self).valid@[v as int] ==> forall|u: int|
                0 <= u < old(self).n() ==> #[trigger] final(self).degrees@[u] == old(
                    self,
                ).degrees@[u] - occ(old(self).nb(v as int), u),
    {
        if !self.valid[v] {
            return ;
        }
        let ghost oldg = *self;
        let ghost ns = oldg.nb(v as int);
        let len = self.neighbors[v].len();
        let mut i: usize = 0;
        while i < len
            invariant
                oldg.wf(),
                v < oldg.n(),
                oldg.valid@[v as int],
                ns == oldg.nb(v as int),
                len == ns.len(),
                i <= len,
                self.neighbors == oldg.neighbors,
                self.valid == oldg.valid,
                self.names == oldg.names,
                self.vertices == oldg.vertices,
                self.degrees@.len() == oldg.n(),
                forall|u: int|
                    0 <= u < oldg.n() ==> #[trigger] self.degrees@[u] == oldg.degrees@[u] - occ(
                        ns.take(i as int),
                        u,
                    ),
            decreases len - i,
        {
            let u = self.neighbors[v][i];
            proof {
                lemma_occ_take_step(ns, i as int, u as int);
                lemma_occ_take_le(ns, i as int + 1, u as int);
                lemma_occ_le_count_active(oldg.nb(u as int), oldg.valid@, v as int);
                assert(occ(ns, u as int) == occ(oldg.nb(u as int), v as int));
                assert forall|w: int|
                    0 <= w < oldg.n() && w != u implies occ(ns.take(i as int + 1), w) == occ(
                    ns.take(i as int),
                    w,
                ) by {
                    lemma_occ_take_step(ns, i as int, w);
                }
            }
            let d = self.degrees[u];
            self.degrees[u] = d - 1;
            i = i + 1;
        }
        proof {
            assert forall|w: int| 0 <= w < oldg.n() implies occ(ns.take(len as int), w) == occ(
                ns,
                w,
            ) by {
                assert(ns.take(len as int) =~= ns);
            }
        }
        proof {
            lemma_count_true_pos_at(oldg.valid@, oldg.n(), v as int);
        }
        self.vertices = self.vertices - 1;
        self.valid[v] = false;
        proof {
            lemma_count_true_update(oldg.valid@, oldg.n(), v as int, false);
            assert forall|a: int, i: int|
                0 <= a < self.n() && 0 <= i < self.nb(a).len() implies 0 <= #[trigger] self.nb(
                a,
            )[i] < self.n() by {
                assert(self.nb(a) == oldg.nb(a));
                assert(0 <= oldg.nb(a)[i] < oldg.n());
            }
            assert forall|a: int, b: int|
                0 <= a < self.n() && 0 <= b < self.n() implies #[trigger] occ(self.nb(a), b) == occ(
                self.nb(b),
                a,
            ) by {
                assert(self.nb(a) == oldg.nb(a));
                assert(self.nb(b) == oldg.nb(b));
            }
            assert forall|w: int| 0 <= w < self.n() implies #[trigger] self.degrees@[w]
                == count_active(self.nb(w), self.valid@) by {
                lemma_count_active_update_false(oldg.nb(w), oldg.valid@, v as int);
                assert(self.nb(w) == oldg.nb(w));
                assert(self.degrees@[w] == oldg.degrees@[w] - occ(ns.take(len as int), w));
                assert(occ(ns.take(len as int), w) == occ(ns, w));
                assert(occ(oldg.nb(w), v as int) == occ(ns, w));
            }
            assert(self.wf());
        }
    }

    /// Reactivates `v`: the exact algebraic mirror of `invalidate_vertex`.
    /// Reactivating an already active vertex is a tolerated no-op.
    pub fn revalidate_vertex(&mut self, v: usize)
        requires
            old(self).wf(),
            v < old(self).n(),
        ensures
            final(self).wf(),
            final(self).neighbors == old(self).neighbors,
            final(self).names == old(self).names,
            old(self).valid@[v as int] ==> *final(self) == *old(self),
            !old(self).valid@[v as int] ==> final(self).valid@ == old(self).valid@.update(
                v as int,
                true,
            ),
            !old(self).valid@[v as int] ==> final(self).vertices == old(self).vertices + 1,
            final(self).degrees@.len() == old(self).degrees@.len(),
            !old(self).valid@[v as int] ==> forall|u: int|
                0 <= u < old(self).n() ==> #[trigger] final(self).degrees@[u] == old(
                    self,
                ).degrees@[u] + occ(old(self).nb(v as int), u),
    {
        if self.valid[v] {
            return ;
        }
        let ghost oldg = *self;
        let ghost ns = oldg.nb(v as int);
        let ghost newvalid = oldg.valid@.update(v as int, true);
        proof {
            vstd::std_specs::vec::axiom_spec_len(&self.valid);
            lemma_count_true_update(oldg.valid@, oldg.n(), v as int, true);
            lemma_count_true_le(newvalid, oldg.n());
        }
        self.valid[v] = true;
        self.vertices = self.vertices + 1;
        let len = self.neighbors[v].len();
        let mut i: usize = 0;
        while i < len
            invariant
                oldg.wf(),
                v < oldg.n(),
                !oldg.valid@[v as int],
                ns == oldg.nb(v as int),
                newvalid == oldg.valid@.update(v as int, true),
                len == ns.len(),
                i <= len,
                self.neighbors == oldg.neighbors,
                self.valid@ == newvalid,
                self.names == oldg.names,
                self.vertices == oldg.vertices + 1,
                self.degrees@.len() == oldg.n(),
                forall|u: int|
                    0 <= u < oldg.n() ==> #[trigger] self.degrees@[u] == oldg.degrees@[u] + occ(
                        ns.take(i as int),
                        u,
                    ),
            decreases len - i,
        {
            let u = self.neighbors[v][i];
            proof {
                lemma_occ_take_step(ns, i as int, u as int);
                lemma_occ_take_le(ns, i as int + 1, u as int);
                lemma_count_active_update_true(oldg.nb(u as int), oldg.valid@, v as int);
                lemma_count_active_le_len(oldg.nb(u as int), newvalid);
                vstd::std_specs::vec::axiom_spec_len(&self.neighbors@[u as int]);
                assert(occ(ns, u as int) == occ(oldg.nb(u as int), v as int));
                assert(oldg.degrees@[u as int] + occ(ns, u as int) == count_active(
                    oldg.nb(u as int),
                    newvalid,
                ));
                assert forall|w: int|
                    0 <= w < oldg.n() && w != u implies occ(ns.take(i as int + 1), w) == occ(
                    ns.take(i as int),
                    w,
                ) by {
                    lemma_occ_take_step(ns, i as int, w);
                }
            }
            let d = self.degrees[u];
            self.degrees[u] = d + 1;
            i = i + 1;
        }
        proof {
            assert forall|w: int| 0 <= w < oldg.n() implies occ(ns.take(len as int), w) == occ(
                ns,
                w,
            ) by {
                assert(ns.take(len as int) =~= ns);
            }
            assert forall|a: int, i: int|
                0 <= a < self.n() && 0 <= i < self.nb(a).len() implies 0 <= #[trigger] self.nb(
                a,
            )[i] < self.n() by {
                assert(self.nb(a) == oldg.nb(a));
                assert(0 <= oldg.nb(a)[i] < oldg.n());
            }
            assert forall|a: int, b: int|
                0 <= a < self.n() && 0 <= b < self.n() implies #[trigger] occ(self.nb(a), b) == occ(
                self.nb(b),
                a,
            ) by {
                assert(self.nb(a) == oldg.nb(a));
                assert(self.nb(b) == oldg.nb(b));
            }
            assert forall|w: int| 0 <= w < self.n() implies #[trigger] self.degrees@[w]
                == count_active(self.nb(w), self.valid@) by {
                lemma_count_active_update_true(oldg.nb(w), oldg.valid@, v as int);
                assert(self.nb(w) == oldg.nb(w));
                assert(self.degrees@[w] == oldg.degrees@[w] + occ(ns.take(len as int), w));
                assert(occ(ns.take(len as int), w) == occ(ns, w));
                assert(occ(oldg.nb(w), v as int) == occ(ns, w));
            }
            assert(self.wf());
        }
    }

    /// Cached count of active neighbors of the active vertex `v`.
    pub fn degree(&self, v: usize) -> (d: usize)
        requires
            self.wf(),
            v < self.n(),
            self.valid@[v as int],
        ensures
            d == self.degrees@[v as int],
            d == count_active(self.nb(v as int), self.valid@),
    {
        self.degrees[v]
    }

    /// Total number of vertices, active or not.
    pub fn size(&self) -> (s: usize)
        requires
            self.wf(),
        ensures
            s == self.n(),
    {
        self.neighbors.len()
    }

    /// Whether `u` occurs in `v`'s adjacency list; activation of either
    /// endpoint is ignored.
    pub fn has_edge(&self, v: usize, u: usize) -> (r: bool)
        requires
            self.wf(),
            v < self.n(),
        ensures
            r == (occ(self.nb(v as int), u as int) > 0),
    {
        let ghost ns = self.nb(v as int);
        let len = self.neighbors[v].len();
        let mut i: usize = 0;
        while i < len
            invariant
                self.wf(),
                v < self.n(),
                ns == self.nb(v as int),
                len == ns.len(),
                i <= len,
                occ(ns.take(i as int), u as int) == 0,
            decreases len - i,
        {
            proof {
                lemma_occ_take_step(ns, i as int, u as int);
            }
            if self.neighbors[v][i] == u {
                proof {
                    lemma_occ_take_le(ns, i as int + 1, u as int);
                }
                return true;
            }
            i = i + 1;
        }
        proof {
            assert(ns.take(len as int) =~= ns);
            lemma_occ_take_all(ns, u as int);
        }
        false
    }

    /// Sum of the cached degrees over the active vertices of the first `k`
    /// ids.
    pub open spec fn sum_active_degrees(self, k: int) -> nat
        decreases k,
    {
        if k <= 0 {
            0
        } else {
            self.sum_active_degrees(k - 1) + if self.valid@[k - 1] {
                self.degrees@[k - 1] as nat
            } else {
                0nat
            }
        }
    }

    /// Number of edges with both endpoints active: half the sum of the
    /// active degrees, which the machine's word must be able to hold.
    pub fn num_edges(&self) -> (r: usize)
        requires
            self.wf(),
            self.sum_active_degrees(self.n()) <= usize::MAX,
        ensures
            r == self.sum_active_degrees(self.n()) / 2,
    {
        let n = self.valid.len();
        let mut acc: usize = 0;
        let mut v: usize = 0;
        while v < n
            invariant
                self.wf(),
                n == self.n(),
                v <= n,
                self.sum_active_degrees(n as int) <= usize::MAX,
                acc == self.sum_active_degrees(v as int),
            decreases n - v,
        {
            proof {
                lemma_sum_active_degrees_monotone(*self, v as int + 1, n as int);
            }
            if self.valid[v] {
                acc = acc + self.degrees[v];
            }
            v = v + 1;
        }
        acc / 2
    }

    /// Label of vertex `id`.
    pub fn id_name(&self, id: usize) -> (r: String)
        requires
            self.wf(),
            id < self.n(),
        ensures
            r@ == self.names@[id as int]@,
    {
        self.names[id].clone()
    }

    /// Id of the vertex carrying the given label; the label must be
    /// present.  Returns the lowest id with that label.
    pub fn name_id(&self, name: String) -> (r: usize)
        requires
            self.wf(),
            exists|i: int| 0 <= i < self.n() && self.names@[i]@ == name@,
        ensures
            r < self.n(),
            self.names@[r as int]@ == name@,
            forall|j: int| 0 <= j < r ==> self.names@[j]@ != name@,
    {
        let n = self.names.len();
        let mut i: usize = 0;
        while i < n
            invariant
                self.wf(),
                n == self.n(),
                i <= n,
                exists|k: int| 0 <= k < self.n() && self.names@[k]@ == name@,
                forall|j: int| 0 <= j < i ==> self.names@[j]@ != name@,
            decreases n - i,
        {
            if self.names[i] == name {
                return i;
            }
            i = i + 1;
        }
        vstd::pervasive::unreached()
    }
}

/// Partial sums of active degrees grow with the range they cover.
pub proof fn lemma_sum_active_degrees_monotone(g: Graph, a: int, b: int)
    requires
        0 <= a <= b,
    ensures
        g.sum_active_degrees(a) <= g.sum_active_degrees(b),
    decreases b - a,
{
    if a < b {
        lemma_sum_active_degrees_monotone(g, a + 1, b);
    }
}

impl Clone for Graph {
    /// Structural copy: every field of the copy views equal to the
    /// original's, so a well-formed graph clones to a well-formed graph.
    fn clone(&self) -> (res: Graph)
        ensures
            res.n() == self.n(),
            res.neighbors@.len() == self.neighbors@.len(),
            forall|v: int| 0 <= v < self.neighbors@.len() ==> #[trigger] res.nb(v) == self.nb(v),
            res.degrees@ == self.degrees@,
            res.valid@ == self.valid@,
            res.names@.len() == self.names@.len(),
            forall|v: int|
                0 <= v < self.names@.len() ==> #[trigger] res.names@[v]@ == self.names@[v]@,
            res.vertices == self.vertices,
            self.wf() ==> res.wf(),
    {
        let res = Graph {
            neighbors: self.neighbors.clone(),
            degrees: self.degrees.clone(),
            valid: self.valid.clone(),
            names: self.names.clone(),
            vertices: self.vertices,
        };
        proof {
            assert(res.degrees@ =~= self.degrees@);
            assert(res.valid@ =~= self.valid@);
            assert forall|v: int| 0 <= v < self.neighbors@.len() implies #[trigger] res.nb(v)
                == self.nb(v) by {
                assert(cloned::<Vec<usize>>(self.neighbors@[v], res.neighbors@[v]));
                assert(res.nb(v) =~= self.nb(v));
            }
            assert forall|v: int| 0 <= v < self.names@.len() implies #[trigger] res.names@[v]@
                == self.names@[v]@ by {
                assert(cloned::<String>(self.names@[v], res.names@[v]));
            }
            if self.wf() {
                assert(res.wf());
            }
        }
        res
    }
}

} // verus!
