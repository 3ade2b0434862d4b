//! Solution bit-vectors and the branch-and-bound solver.

use vstd::prelude::*;

use crate::counts::{
    count_active, count_true, lemma_count_active_absent, lemma_count_true_le,
    lemma_count_true_lt, lemma_count_true_pos, lemma_count_true_pos_at, lemma_count_true_push,
    lemma_count_true_update, lemma_occ_at, lemma_occ_le_count_active,
    lemma_occ_pos_witness, occ,
};
use crate::graph::Graph;
use crate::reduction::{
    active_edge, edges_settled, exclude_shape, has_cover, is_cover, lemma_cover_exclude_lift,
    lemma_cover_exclude_restrict, lemma_cover_grows_with_vertex, lemma_cover_lift_through,
    lemma_cover_push_through, lemma_cover_shrinks_without_vertex, lemma_isolated_reduction_sound,
    lemma_pendant_reduction_sound, lemma_selfloop_reduction_sound,
};

verus! {

/// Inclusion bit-vector of fixed length with cached cardinality.
pub struct Solution {
    pub flag: Vec<bool>,
    pub size: usize,
}

impl Solution {
    /// Well-formedness: the cached cardinality is the population count of
    /// the bit-vector.
    pub open spec fn wf(self) -> bool {
        self.size == count_true(self.flag@, self.flag@.len() as int)
    }

    pub open spec fn len(self) -> int {
        self.flag@.len() as int
    }

    /// All-false solution of the graph's size.
    pub fn new(g: &Graph) -> (s: Solution)
        requires
            g.wf(),
        ensures
            s.wf(),
            s.len() == g.n(),
            forall|v: int| 0 <= v < s.len() ==> !(#[trigger] s.flag@[v]),
            s.size == 0,
    {
        let n = g.size();
        let mut flag: Vec<bool> = Vec::new();
        let mut i: usize = 0;
        while i < n
            invariant
                i <= n,
                flag@.len() == i,
                forall|v: int| 0 <= v < i ==> !(#[trigger] flag@[v]),
                count_true(flag@, i as int) == 0,
            decreases n - i,
        {
            proof {
                lemma_count_true_push(flag@, false);
            }
            flag.push(false);
            i = i + 1;
        }
        Solution { flag, size: 0 }
    }

    /// All-true solution: the worst-case upper bound that the search must
    /// beat.
    pub fn max(g: &Graph) -> (s: Solution)
        requires
            g.wf(),
        ensures
            s.wf(),
            s.len() == g.n(),
            forall|v: int| 0 <= v < s.len() ==> #[trigger] s.flag@[v],
            s.size == g.n(),
    {
        let n = g.size();
        let mut flag: Vec<bool> = Vec::new();
        let mut i: usize = 0;
        while i < n
            invariant
                i <= n,
                flag@.len() == i,
                forall|v: int| 0 <= v < i ==> #[trigger] flag@[v],
                count_true(flag@, i as int) == i,
            decreases n - i,
        {
            proof {
                lemma_count_true_push(flag@, true);
            }
            flag.push(true);
            i = i + 1;
        }
        Solution { flag, size: n }
    }

    /// Sets bit `v` and raises the cardinality by one.  The bit must have
    /// been clear: the cached cardinality must stay the population count.
    pub fn include_vertex(&mut self, v: usize)
        requires
            old(self).wf(),
            v < old(self).len(),
            !old(self).flag@[v as int],
        ensures
            final(self).wf(),
            final(self).flag@ == old(self).flag@.update(v as int, true),
            final(self).size == old(self).size + 1,
    {
        proof {
            lemma_count_true_update(self.flag@, self.len(), v as int, true);
            lemma_count_true_le(self.flag@.update(v as int, true), self.len());
            vstd::std_specs::vec::axiom_spec_len(&self.flag);
        }
        self.flag[v] = true;
        self.size = self.size + 1;
    }

    /// Clears bit `v` and lowers the cardinality by one.  The bit must
    /// have been set.
    pub fn exclude(&mut self, v: usize)
        requires
            old(self).wf(),
            v < old(self).len(),
            old(self).flag@[v as int],
        ensures
            final(self).wf(),
            final(self).flag@ == old(self).flag@.update(v as int, false),
            final(self).size == old(self).size - 1,
    {
        proof {
            lemma_count_true_update(self.flag@, self.len(), v as int, false);
            lemma_count_true_pos_at(self.flag@, self.len(), v as int);
        }
        self.flag[v] = false;
        self.size = self.size - 1;
    }

    /// Whether vertex `v` is included.
    pub fn in_sol(&self, v: usize) -> (r: bool)
        requires
            v < self.len(),
        ensures
            r == self.flag@[v as int],
    {
        self.flag[v]
    }

    /// Cached cardinality.
    pub fn size(&self) -> (r: usize)
        ensures
            r == self.size,
    {
        self.size
    }
}

impl Clone for Solution {
    /// Structural copy of bit-vector and cached cardinality.
    fn clone(&self) -> (res: Solution)
        ensures
            res.flag@ == self.flag@,
            res.size == self.size,
    {
        let res = Solution { flag: self.flag.clone(), size: self.size };
        proof {
            assert(res.flag@ =~= self.flag@);
        }
        res
    }
}

impl PartialEq for Solution {
    /// Solutions compare by cardinality alone.
    fn eq(&self, other: &Solution) -> (r: bool) {
        self.size == other.size
    }
}

impl vstd::std_specs::cmp::PartialEqSpecImpl for Solution {
    open spec fn obeys_eq_spec() -> bool {
        true
    }

    open spec fn eq_spec(&self, other: &Solution) -> bool {
        self.size == other.size
    }
}

impl PartialOrd for Solution {
    /// Solutions order by cardinality alone: smaller is better.
    fn partial_cmp(&self, other: &Solution) -> (r: Option<core::cmp::Ordering>) {
        if self.size < other.size {
            Some(core::cmp::Ordering::Less)
        } else if self.size == other.size {
            Some(core::cmp::Ordering::Equal)
        } else {
            Some(core::cmp::Ordering::Greater)
        }
    }
}

impl vstd::std_specs::cmp::PartialOrdSpecImpl for Solution {
    open spec fn obeys_partial_cmp_spec() -> bool {
        true
    }

    open spec fn partial_cmp_spec(&self, other: &Solution) -> Option<core::cmp::Ordering> {
        if self.size < other.size {
            Some(core::cmp::Ordering::Less)
        } else if self.size == other.size {
            Some(core::cmp::Ordering::Equal)
        } else {
            Some(core::cmp::Ordering::Greater)
        }
    }
}

/// One reversible step of the search: a vertex that was deactivated, and
/// whether it was also included into the working solution at that moment.
#[derive(Clone, Copy)]
pub struct UndoEntry {
    pub vertex: usize,
    pub included: bool,
}

/// Ghost snapshot of everything the solver mutates: the graph's activation
/// flags, cached degrees and active count, and the working solution's bits
/// and cached cardinality.
#[verifier::ext_equal]
pub ghost struct SearchState {
    pub valid: Seq<bool>,
    pub degrees: Seq<usize>,
    pub active: usize,
    pub flag: Seq<bool>,
    pub ssize: usize,
}

/// The mutable part of a graph/solution pair.
pub open spec fn state_of(g: Graph, s: Solution) -> SearchState {
    SearchState { valid: g.valid@, degrees: g.degrees@, active: g.vertices, flag: s.flag@, ssize: s.size }
}

/// The graph's adjacency lists, which the solver never changes.
pub open spec fn nbs_of(g: Graph) -> Seq<Seq<usize>> {
    Seq::new(g.neighbors@.len() as nat, |v: int| g.nb(v))
}

/// Every included vertex is deactivated: the discipline the solver keeps
/// while it owns the graph/solution pair.
pub open spec fn compat(g: Graph, s: Solution) -> bool {
    forall|v: int| 0 <= v < g.n() ==> (#[trigger] s.flag@[v] ==> !g.valid@[v])
}

/// The undo log describes distinct vertices that are all currently
/// deactivated, with the inclusion flags matching the working solution.
pub open spec fn log_ok(log: Seq<UndoEntry>, valid: Seq<bool>, flag: Seq<bool>) -> bool {
    &&& forall|j: int|
        0 <= j < log.len() ==> (#[trigger] log[j]).vertex < valid.len()
            && !valid[log[j].vertex as int] && (log[j].included ==> flag[log[j].vertex as int])
    &&& forall|j: int, k: int|
        0 <= j < k < log.len() ==> (#[trigger] log[j]).vertex != (#[trigger] log[k]).vertex
}

/// Appending a freshly deactivated vertex keeps an undo log well-formed:
/// it was active until now, so it is distinct from every logged vertex,
/// and its own flags match the step just performed.
pub proof fn lemma_log_ok_push(
    log: Seq<UndoEntry>,
    valid: Seq<bool>,
    flag: Seq<bool>,
    e: UndoEntry,
    valid2: Seq<bool>,
    flag2: Seq<bool>,
)
    requires
        log_ok(log, valid, flag),
        flag.len() == valid.len(),
        (e.vertex as int) < valid.len(),
        valid[e.vertex as int],
        valid2 == valid.update(e.vertex as int, false),
        e.included ==> flag2 == flag.update(e.vertex as int, true),
        !e.included ==> flag2 == flag,
    ensures
        log_ok(log.push(e), valid2, flag2),
{
    let log2 = log.push(e);
    assert forall|j: int| 0 <= j < log2.len() implies ((#[trigger] log2[j]).vertex < valid2.len()
        && !valid2[log2[j].vertex as int] && (log2[j].included ==> flag2[log2[j].vertex as int])) by {
        if j < log.len() {
            assert(log2[j] == log[j]);
            assert(!valid[log[j].vertex as int]);
        } else {
            assert(log2[j] == e);
        }
    }
    assert forall|j: int, k: int|
        0 <= j < k < log2.len() implies (#[trigger] log2[j]).vertex != (#[trigger] log2[k]).vertex by {
        if k < log.len() {
            assert(log2[j] == log[j] && log2[k] == log[k]);
        } else {
            assert(log2[k] == e);
            assert(log2[j] == log[j]);
            assert(!valid[log[j].vertex as int]);
        }
    }
}

/// Reverses one logged step: reactivate the vertex (raising the degrees of
/// its neighbors) and, if it had been included, clear its bit.
pub open spec fn undo_step(st: SearchState, nbs: Seq<Seq<usize>>, e: UndoEntry) -> SearchState {
    SearchState {
        valid: st.valid.update(e.vertex as int, true),
        degrees: Seq::new(
            st.degrees.len(),
            |u: int| (st.degrees[u] + occ(nbs[e.vertex as int], u)) as usize,
        ),
        active: (st.active + 1) as usize,
        flag: if e.included {
            st.flag.update(e.vertex as int, false)
        } else {
            st.flag
        },
        ssize: if e.included {
            (st.ssize - 1) as usize
        } else {
            st.ssize
        },
    }
}

/// Reverses a whole log, last entry first.
pub open spec fn replay(st: SearchState, nbs: Seq<Seq<usize>>, log: Seq<UndoEntry>) -> SearchState
    decreases log.len(),
{
    if log.len() == 0 {
        st
    } else {
        replay(undo_step(st, nbs, log.last()), nbs, log.drop_last())
    }
}

pub proof fn lemma_replay_push(
    st: SearchState,
    nbs: Seq<Seq<usize>>,
    log: Seq<UndoEntry>,
    e: UndoEntry,
)
    ensures
        replay(st, nbs, log.push(e)) == replay(undo_step(st, nbs, e), nbs, log),
{
    assert(log.push(e).drop_last() =~= log);
    assert(log.push(e).last() == e);
}

pub proof fn lemma_replay_take_step(
    st: SearchState,
    nbs: Seq<Seq<usize>>,
    log: Seq<UndoEntry>,
    i: int,
)
    requires
        1 <= i <= log.len(),
    ensures
        replay(st, nbs, log.take(i)) == replay(undo_step(st, nbs, log[i - 1]), nbs, log.take(i - 1)),
{
    assert(log.take(i).drop_last() =~= log.take(i - 1));
    assert(log.take(i).last() == log[i - 1]);
}

/// Replaying a concatenation reverses the later part first.
pub proof fn lemma_replay_append(
    st: SearchState,
    nbs: Seq<Seq<usize>>,
    a: Seq<UndoEntry>,
    b: Seq<UndoEntry>,
)
    ensures
        replay(st, nbs, a + b) == replay(replay(st, nbs, b), nbs, a),
    decreases b.len(),
{
    if b.len() == 0 {
        assert(a + b =~= a);
    } else {
        assert((a + b).drop_last() =~= a + b.drop_last());
        assert((a + b).last() == b.last());
        lemma_replay_append(undo_step(st, nbs, b.last()), nbs, a, b.drop_last());
    }
}

/// Two graphs with the same adjacency vector have the same `nbs_of`.
pub proof fn lemma_nbs_congruent(g1: Graph, g2: Graph)
    requires
        g1.neighbors == g2.neighbors,
    ensures
        nbs_of(g1) == nbs_of(g2),
{
    assert(nbs_of(g1) =~= nbs_of(g2));
}

/// Undoing a deactivation (with or without an inclusion) restores the
/// exact prior state.
pub proof fn lemma_deactivate_inverts(
    g0: Graph,
    g1: Graph,
    s0: Solution,
    s1: Solution,
    nbs: Seq<Seq<usize>>,
    e: UndoEntry,
)
    requires
        g0.wf(),
        (e.vertex as int) < g0.n(),
        g0.valid@[e.vertex as int],
        nbs.len() == g0.n(),
        forall|w: int| 0 <= w < g0.n() ==> nbs[w] == g0.nb(w),
        g1.valid@ == g0.valid@.update(e.vertex as int, false),
        g1.vertices == g0.vertices - 1,
        g0.degrees@.len() == g0.n(),
        g1.degrees@.len() == g0.n(),
        forall|u: int|
            0 <= u < g0.n() ==> #[trigger] g1.degrees@[u] == g0.degrees@[u] - occ(
                g0.nb(e.vertex as int),
                u,
            ),
        e.included ==> !s0.flag@[e.vertex as int] && (e.vertex as int) < s0.flag@.len()
            && s1.flag@ == s0.flag@.update(e.vertex as int, true) && s1.size == s0.size + 1,
        !e.included ==> s1.flag@ == s0.flag@ && s1.size == s0.size,
    ensures
        undo_step(state_of(g1, s1), nbs, e) == state_of(g0, s0),
{
    let st = undo_step(state_of(g1, s1), nbs, e);
    assert(st.valid =~= g0.valid@);
    assert forall|u: int| 0 <= u < g0.n() implies st.degrees[u] == g0.degrees@[u] by {
        assert(g1.degrees@[u] == g0.degrees@[u] - occ(g0.nb(e.vertex as int), u));
        assert(nbs[e.vertex as int] == g0.nb(e.vertex as int));
    }
    assert(st.degrees =~= g0.degrees@);
    assert(st.flag =~= s0.flag@);
    assert(st =~= state_of(g0, s0));
}

/// Reactivating a logged vertex performs exactly `undo_step` on the state.
pub proof fn lemma_reactivate_matches(
    g1: Graph,
    g2: Graph,
    s1: Solution,
    s2: Solution,
    nbs: Seq<Seq<usize>>,
    e: UndoEntry,
)
    requires
        g1.wf(),
        (e.vertex as int) < g1.n(),
        !g1.valid@[e.vertex as int],
        nbs.len() == g1.n(),
        forall|w: int| 0 <= w < g1.n() ==> nbs[w] == g1.nb(w),
        g2.valid@ == g1.valid@.update(e.vertex as int, true),
        g2.vertices == g1.vertices + 1,
        g1.degrees@.len() == g1.n(),
        g2.degrees@.len() == g1.n(),
        forall|u: int|
            0 <= u < g1.n() ==> #[trigger] g2.degrees@[u] == g1.degrees@[u] + occ(
                g1.nb(e.vertex as int),
                u,
            ),
        e.included ==> s1.flag@[e.vertex as int] && (e.vertex as int) < s1.flag@.len()
            && s2.flag@ == s1.flag@.update(e.vertex as int, false) && s2.size == s1.size - 1,
        !e.included ==> s2.flag@ == s1.flag@ && s2.size == s1.size,
    ensures
        state_of(g2, s2) == undo_step(state_of(g1, s1), nbs, e),
{
    let st = undo_step(state_of(g1, s1), nbs, e);
    assert(st.valid =~= g2.valid@);
    assert forall|u: int| 0 <= u < g1.n() implies st.degrees[u] == g2.degrees@[u] by {
        assert(g2.degrees@[u] == g1.degrees@[u] + occ(g1.nb(e.vertex as int), u));
        assert(nbs[e.vertex as int] == g1.nb(e.vertex as int));
    }
    assert(st.degrees =~= g2.degrees@);
    assert(st.flag =~= s2.flag@);
    assert(st =~= state_of(g2, s2));
}

/// Includes `v` into the working solution and deactivates it, as one step.
pub(crate) fn select_vertex(g: &mut Graph, v: usize, sol: &mut Solution)
    requires
        old(g).wf(),
        v < old(g).n(),
        old(g).valid@[v as int],
        old(sol).wf(),
        old(sol).len() == old(g).n(),
        !old(sol).flag@[v as int],
    ensures
        final(g).wf(),
        final(sol).wf(),
        final(sol).len() == old(g).n(),
        final(g).n() == old(g).n(),
        final(g).neighbors == old(g).neighbors,
        final(g).names == old(g).names,
        final(g).valid@ == old(g).valid@.update(v as int, false),
        final(g).vertices == old(g).vertices - 1,
        final(sol).flag@ == old(sol).flag@.update(v as int, true),
        final(sol).size == old(sol).size + 1,
        final(g).degrees@.len() == old(g).n(),
        forall|u: int|
            0 <= u < old(g).n() ==> #[trigger] final(g).degrees@[u] == old(g).degrees@[u] - occ(
                old(g).nb(v as int),
                u,
            ),
        undo_step(
            state_of(*final(g), *final(sol)),
            nbs_of(*old(g)),
            (UndoEntry { vertex: v, included: true }),
        ) == state_of(*old(g), *old(sol)),
{
    sol.include_vertex(v);
    g.invalidate_vertex(v);
    proof {
        lemma_deactivate_inverts(
            *old(g),
            *g,
            *old(sol),
            *sol,
            nbs_of(*old(g)),
            (UndoEntry { vertex: v, included: true }),
        );
    }
}

/// Clears `v`'s bit and reactivates it: the exact reverse of
/// `select_vertex`.
pub(crate) fn unselect_vertex(g: &mut Graph, v: usize, sol: &mut Solution)
    requires
        old(g).wf(),
        v < old(g).n(),
        !old(g).valid@[v as int],
        old(sol).wf(),
        old(sol).len() == old(g).n(),
        old(sol).flag@[v as int],
    ensures
        final(g).wf(),
        final(sol).wf(),
        final(sol).len() == old(g).n(),
        final(g).n() == old(g).n(),
        final(g).neighbors == old(g).neighbors,
        final(g).names == old(g).names,
        state_of(*final(g), *final(sol)) == undo_step(
            state_of(*old(g), *old(sol)),
            nbs_of(*old(g)),
            (UndoEntry { vertex: v, included: true }),
        ),
{
    sol.exclude(v);
    g.revalidate_vertex(v);
    proof {
        lemma_reactivate_matches(
            *old(g),
            *g,
            *old(sol),
            *sol,
            nbs_of(*old(g)),
            (UndoEntry { vertex: v, included: true }),
        );
    }
}

/// First entry of `v`'s adjacency list that refers to an active vertex.
fn first_active_neighbor(g: &Graph, v: usize) -> (u: usize)
    requires
        g.wf(),
        v < g.n(),
        count_active(g.nb(v as int), g.valid@) >= 1,
    ensures
        u < g.n(),
        g.valid@[u as int],
        exists|i: int| 0 <= i < g.nb(v as int).len() && g.nb(v as int)[i] == u,
{
    let len = g.neighbors[v].len();
    let mut i: usize = 0;
    while i < len
        invariant
            g.wf(),
            v < g.n(),
            len == g.nb(v as int).len(),
            i <= len,
            count_active(g.nb(v as int), g.valid@) >= 1,
            forall|j: int| 0 <= j < i ==> !g.valid@[#[trigger] g.nb(v as int)[j] as int],
        decreases len - i,
    {
        let u = g.neighbors[v][i];
        if g.valid[u] {
            return u;
        }
        i = i + 1;
    }
    proof {
        lemma_count_active_absent(g.nb(v as int), g.valid@);
    }
    vstd::pervasive::unreached()
}

/// The active vertex of maximum cached degree; ties break towards the
/// lowest id, so the choice is deterministic.
pub(crate) fn max_degree(g: &Graph) -> (v: usize)
    requires
        g.wf(),
        g.vertices > 0,
    ensures
        v < g.n(),
        g.valid@[v as int],
        forall|u: int|
            0 <= u < g.n() && g.valid@[u] ==> #[trigger] g.degrees@[u] <= g.degrees@[v as int],
        forall|u: int| 0 <= u < v && g.valid@[u] ==> #[trigger] g.degrees@[u] < g.degrees@[v as int],
{
    let n = g.valid.len();
    let mut best: usize = 0;
    let mut found = false;
    let mut i: usize = 0;
    while i < n
        invariant
            g.wf(),
            n == g.n(),
            i <= n,
            found ==> best < i && g.valid@[best as int],
            found ==> forall|u: int|
                0 <= u < i && g.valid@[u] ==> #[trigger] g.degrees@[u] <= g.degrees@[best as int],
            found ==> forall|u: int|
                0 <= u < best && g.valid@[u] ==> #[trigger] g.degrees@[u] < g.degrees@[best as int],
            !found ==> forall|u: int| 0 <= u < i ==> !g.valid@[u],
        decreases n - i,
    {
        if g.valid[i] {
            if !found || g.degrees[i] > g.degrees[best] {
                best = i;
                found = true;
            }
        }
        i = i + 1;
    }
    proof {
        if !found {
            lemma_count_true_pos(g.valid@, g.n());
            assert(false);
        }
    }
    best
}

/// One reduction pass over all vertices.  Every isolated active vertex is
/// deactivated; for every active vertex of degree one, its active neighbor
/// is included and deactivated, then the vertex itself is deactivated.
/// Every deactivation is logged in order on `removed`.  Returns whether
/// the pass changed anything: exactly when, on entry, some active vertex
/// had degree at most one.
pub(crate) fn deg1_reduce(g: &mut Graph, sol: &mut Solution, removed: &mut Vec<UndoEntry>) -> (reduced:
    bool)
    requires
        old(g).wf(),
        old(sol).wf(),
        old(sol).len() == old(g).n(),
        compat(*old(g), *old(sol)),
        log_ok(old(removed)@, old(g).valid@, old(sol).flag@),
    ensures
        final(g).wf(),
        final(sol).wf(),
        final(sol).len() == old(g).n(),
        final(g).n() == old(g).n(),
        final(g).neighbors == old(g).neighbors,
        final(g).names == old(g).names,
        compat(*final(g), *final(sol)),
        log_ok(final(removed)@, final(g).valid@, final(sol).flag@),
        final(removed)@.len() >= old(removed)@.len(),
        final(removed)@.take(old(removed)@.len() as int) == old(removed)@,
        replay(
            state_of(*final(g), *final(sol)),
            nbs_of(*old(g)),
            final(removed)@.skip(old(removed)@.len() as int),
        ) == state_of(*old(g), *old(sol)),
        final(g).vertices <= old(g).vertices,
        reduced ==> final(g).vertices < old(g).vertices,
        reduced == (exists|w: int|
            0 <= w < old(g).n() && old(g).valid@[w] && (#[trigger] old(g).degrees@[w]) <= 1),
        final(sol).size >= old(sol).size,
        forall|w: int|
            0 <= w < old(sol).len() ==> ((#[trigger] old(sol).flag@[w]) ==> final(sol).flag@[w]),
        forall|w: int|
            0 <= w < old(g).n() ==> ((#[trigger] final(g).valid@[w]) ==> old(g).valid@[w]),
        edges_settled(*old(g), final(g).valid@, final(sol).flag@),
        forall|j: int|
            #[trigger] has_cover(*final(g), j) == has_cover(
                *old(g),
                j + final(sol).size - old(sol).size,
            ),
        !reduced ==> *final(g) == *old(g) && *final(sol) == *old(sol) && final(removed)@ == old(
            removed,
        )@,
{
    let ghost g0 = *old(g);
    let ghost s0 = *old(sol);
    let ghost base = old(removed)@.len() as int;
    let ghost nbs0 = nbs_of(g0);
    let mut reduced = false;
    let n = g.valid.len();
    let mut v: usize = 0;
    proof {
        assert(removed@.skip(base) =~= Seq::<UndoEntry>::empty());
        assert forall|a: int, b: int| #[trigger] active_edge(g0, a, b) implies (sol.flag@[a]
            || sol.flag@[b] || (g.valid@[a] && g.valid@[b])) by {}
    }
    while v < n
        invariant
            g0.wf(),
            s0.wf(),
            s0.len() == g0.n(),
            g.wf(),
            sol.wf(),
            sol.len() == g0.n(),
            g.n() == g0.n(),
            n == g0.n(),
            v <= n,
            g.neighbors == g0.neighbors,
            g.names == g0.names,
            nbs0 == nbs_of(g0),
            compat(*g, *sol),
            log_ok(removed@, g.valid@, sol.flag@),
            removed@.len() >= base,
            base == old(removed)@.len(),
            removed@.take(base) == old(removed)@,
            replay(state_of(*g, *sol), nbs0, removed@.skip(base)) == state_of(g0, s0),
            g.vertices <= g0.vertices,
            reduced ==> g.vertices < g0.vertices,
            reduced ==> exists|w: int|
                0 <= w < g0.n() && g0.valid@[w] && (#[trigger] g0.degrees@[w]) <= 1,
            !reduced ==> forall|w: int|
                0 <= w < v && g0.valid@[w] ==> (#[trigger] g0.degrees@[w]) >= 2,
            sol.size >= s0.size,
            forall|w: int| 0 <= w < s0.len() ==> ((#[trigger] s0.flag@[w]) ==> sol.flag@[w]),
            forall|w: int| 0 <= w < g0.n() ==> ((#[trigger] g.valid@[w]) ==> g0.valid@[w]),
            edges_settled(g0, g.valid@, sol.flag@),
            forall|j: int| #[trigger] has_cover(*g, j) == has_cover(g0, j + sol.size - s0.size),
            !reduced ==> *g == *old(g) && *sol == *old(sol) && removed@ == old(removed)@,
        decreases n - v,
    {
        if g.valid[v] {
            let d = g.degree(v);
            if d == 0 {
                proof {
                    if !reduced {
                        assert(*g == *old(g));
                        assert(g0.valid@[v as int] && g0.degrees@[v as int] <= 1);
                    }
                    assert(exists|w: int|
                        0 <= w < g0.n() && g0.valid@[w] && (#[trigger] g0.degrees@[w]) <= 1);
                }
                let ghost pre_g = *g;
                let ghost pre_s = *sol;
                let ghost pre_r = removed@;
                g.invalidate_vertex(v);
                removed.push(UndoEntry { vertex: v, included: false });
                reduced = true;
                proof {
                    let e = UndoEntry { vertex: v, included: false };
                    assert forall|x: int| 0 <= x < g0.n() implies nbs0[x] == pre_g.nb(x) by {
                        assert(nbs0[x] == g0.nb(x));
                    }
                    lemma_deactivate_inverts(pre_g, *g, pre_s, *sol, nbs0, e);
                    lemma_replay_push(state_of(*g, *sol), nbs0, pre_r.skip(base), e);
                    assert(removed@.skip(base) =~= pre_r.skip(base).push(e));
                    assert(removed@.take(base) =~= pre_r.take(base));
                    lemma_log_ok_push(pre_r, pre_g.valid@, pre_s.flag@, e, g.valid@, sol.flag@);
                    assert(log_ok(removed@, g.valid@, sol.flag@));
                    assert forall|j: int| #[trigger] has_cover(*g, j) == has_cover(
                        g0,
                        j + sol.size - s0.size,
                    ) by {
                        lemma_isolated_reduction_sound(pre_g, *g, v as int, j);
                        assert(has_cover(pre_g, j) == has_cover(g0, j + pre_s.size - s0.size));
                    }
                    assert forall|a: int, b: int| #[trigger] active_edge(g0, a, b) implies (
                    sol.flag@[a] || sol.flag@[b] || (g.valid@[a] && g.valid@[b])) by {
                        assert(pre_s.flag@[a] || pre_s.flag@[b] || (pre_g.valid@[a]
                            && pre_g.valid@[b]));
                        if !(pre_s.flag@[a] || pre_s.flag@[b]) && (a == v as int || b
                            == v as int) {
                            let c = if a == v as int {
                                b
                            } else {
                                a
                            };
                            assert(pre_g.nb(a) == g0.nb(a));
                            assert(pre_g.nb(b) == g0.nb(b));
                            assert(pre_g.nb(v as int) == g0.nb(v as int));
                            if b == v as int && a != v as int {
                                assert(occ(g0.nb(a), b) == occ(g0.nb(b), a));
                            }
                            assert(occ(pre_g.nb(v as int), c) > 0);
                            lemma_occ_le_count_active(pre_g.nb(v as int), pre_g.valid@, c);
                            assert(false);
                        }
                    }
                }
            } else if d == 1 {
                proof {
                    if !reduced {
                        assert(*g == *old(g));
                        assert(g0.valid@[v as int] && g0.degrees@[v as int] <= 1);
                    }
                    assert(exists|w: int|
                        0 <= w < g0.n() && g0.valid@[w] && (#[trigger] g0.degrees@[w]) <= 1);
                }
                reduced = true;
                let u = first_active_neighbor(g, v);
                let ghost pre_g = *g;
                let ghost pre_s = *sol;
                let ghost pre_r = removed@;
                proof {
                    let wi = choose|i: int|
                        0 <= i < pre_g.nb(v as int).len() && pre_g.nb(v as int)[i] == u;
                    lemma_occ_at(pre_g.nb(v as int), wi);
                    assert(occ(pre_g.nb(v as int), u as int) >= 1);
                }
                select_vertex(g, u, sol);
                removed.push(UndoEntry { vertex: u, included: true });
                proof {
                    let e = UndoEntry { vertex: u, included: true };
                    lemma_nbs_congruent(pre_g, g0);
                    lemma_replay_push(state_of(*g, *sol), nbs0, pre_r.skip(base), e);
                    assert(removed@.skip(base) =~= pre_r.skip(base).push(e));
                    assert(removed@.take(base) =~= pre_r.take(base));
                    lemma_log_ok_push(pre_r, pre_g.valid@, pre_s.flag@, e, g.valid@, sol.flag@);
                    assert(log_ok(removed@, g.valid@, sol.flag@));
                    assert(compat(*g, *sol));
                    assert forall|a: int, b: int| #[trigger] active_edge(g0, a, b) implies (
                    sol.flag@[a] || sol.flag@[b] || (g.valid@[a] && g.valid@[b])) by {
                        assert(pre_s.flag@[a] || pre_s.flag@[b] || (pre_g.valid@[a]
                            && pre_g.valid@[b]));
                        if a == u as int || b == u as int {
                            assert(sol.flag@[u as int]);
                        }
                    }
                }
                if g.valid[v] {
                    let ghost pre_g2 = *g;
                    let ghost pre_s2 = *sol;
                    let ghost pre_r2 = removed@;
                    g.invalidate_vertex(v);
                    removed.push(UndoEntry { vertex: v, included: false });
                    proof {
                        let e = UndoEntry { vertex: v, included: false };
                        assert forall|x: int| 0 <= x < g0.n() implies nbs0[x] == pre_g2.nb(x) by {
                            assert(nbs0[x] == g0.nb(x));
                        }
                        lemma_deactivate_inverts(pre_g2, *g, pre_s2, *sol, nbs0, e);
                        lemma_replay_push(state_of(*g, *sol), nbs0, pre_r2.skip(base), e);
                        assert(removed@.skip(base) =~= pre_r2.skip(base).push(e));
                        assert(removed@.take(base) =~= pre_r2.take(base));
                        lemma_log_ok_push(
                            pre_r2,
                            pre_g2.valid@,
                            pre_s2.flag@,
                            e,
                            g.valid@,
                            sol.flag@,
                        );
                        assert(log_ok(removed@, g.valid@, sol.flag@));
                        assert(u != v);
                        assert(g.valid@ == pre_g.valid@.update(u as int, false).update(
                            v as int,
                            false,
                        ));
                        assert(pre_g2.degrees@[v as int] == pre_g.degrees@[v as int] - occ(
                            pre_g.nb(u as int),
                            v as int,
                        ));
                        assert(occ(pre_g.nb(u as int), v as int) == occ(
                            pre_g.nb(v as int),
                            u as int,
                        ));
                        assert(pre_g2.degrees@[v as int] == 0);
                        assert forall|a: int, b: int| #[trigger] active_edge(g0, a, b) implies (
                        sol.flag@[a] || sol.flag@[b] || (g.valid@[a] && g.valid@[b])) by {
                            assert(pre_s2.flag@[a] || pre_s2.flag@[b] || (pre_g2.valid@[a]
                                && pre_g2.valid@[b]));
                            if !(pre_s2.flag@[a] || pre_s2.flag@[b]) && (a == v as int || b
                                == v as int) {
                                let c = if a == v as int {
                                    b
                                } else {
                                    a
                                };
                                assert(pre_g2.nb(a) == g0.nb(a));
                                assert(pre_g2.nb(b) == g0.nb(b));
                                assert(pre_g2.nb(v as int) == g0.nb(v as int));
                                if b == v as int && a != v as int {
                                    assert(occ(g0.nb(a), b) == occ(g0.nb(b), a));
                                }
                                assert(occ(pre_g2.nb(v as int), c) > 0);
                                lemma_occ_le_count_active(pre_g2.nb(v as int), pre_g2.valid@, c);
                                assert(false);
                            }
                        }
                        assert forall|j: int| #[trigger] has_cover(*g, j) == has_cover(
                            g0,
                            j + sol.size - s0.size,
                        ) by {
                            lemma_pendant_reduction_sound(pre_g, *g, v as int, u as int, j + 1);
                            assert(has_cover(pre_g, j + 1) == has_cover(
                                g0,
                                j + 1 + pre_s.size - s0.size,
                            ));
                        }
                    }
                } else {
                    proof {
                        assert(u == v);
                        assert forall|j: int| #[trigger] has_cover(*g, j) == has_cover(
                            g0,
                            j + sol.size - s0.size,
                        ) by {
                            lemma_selfloop_reduction_sound(pre_g, *g, v as int, j + 1);
                            assert(has_cover(pre_g, j + 1) == has_cover(
                                g0,
                                j + 1 + pre_s.size - s0.size,
                            ));
                        }
                    }
                }
            } else {
                proof {
                    if !reduced {
                        assert(*g == *old(g));
                        assert(g0.degrees@[v as int] == d);
                    }
                }
            }
        } else {
            proof {
                if !reduced {
                    assert(*g == *old(g));
                    assert(!g0.valid@[v as int]);
                }
            }
        }
        v = v + 1;
    }
    reduced
}

/// Reverses every step of an undo log, last entry first: each vertex is
/// reactivated and, where it had been included, excluded again.
pub(crate) fn undo_removed(g: &mut Graph, sol: &mut Solution, removed: &Vec<UndoEntry>)
    requires
        old(g).wf(),
        old(sol).wf(),
        old(sol).len() == old(g).n(),
        log_ok(removed@, old(g).valid@, old(sol).flag@),
    ensures
        final(g).wf(),
        final(sol).wf(),
        final(sol).len() == old(g).n(),
        final(g).n() == old(g).n(),
        final(g).neighbors == old(g).neighbors,
        final(g).names == old(g).names,
        state_of(*final(g), *final(sol)) == replay(
            state_of(*old(g), *old(sol)),
            nbs_of(*old(g)),
            removed@,
        ),
{
    let ghost g0 = *old(g);
    let ghost s0 = *old(sol);
    let ghost nbs0 = nbs_of(g0);
    let mut i: usize = removed.len();
    proof {
        assert(removed@.take(i as int) =~= removed@);
    }
    while i > 0
        invariant
            g0.wf(),
            g.wf(),
            sol.wf(),
            sol.len() == g0.n(),
            g.n() == g0.n(),
            i <= removed@.len(),
            g.neighbors == g0.neighbors,
            g.names == g0.names,
            nbs0 == nbs_of(g0),
            log_ok(removed@.take(i as int), g.valid@, sol.flag@),
            replay(state_of(*g, *sol), nbs0, removed@.take(i as int)) == replay(
                state_of(g0, s0),
                nbs0,
                removed@,
            ),
        decreases i,
    {
        let e = removed[i - 1];
        let ghost pre_g = *g;
        let ghost pre_s = *sol;
        proof {
            assert(removed@.take(i as int)[i - 1] == e);
        }
        g.revalidate_vertex(e.vertex);
        if e.included {
            sol.exclude(e.vertex);
        }
        proof {
            assert forall|x: int| 0 <= x < g0.n() implies nbs0[x] == pre_g.nb(x) by {
                assert(nbs0[x] == g0.nb(x));
            }
            lemma_reactivate_matches(pre_g, *g, pre_s, *sol, nbs0, e);
            lemma_replay_take_step(state_of(pre_g, pre_s), nbs0, removed@, i as int);
            assert forall|jj: int|
                0 <= jj < i - 1 implies ((#[trigger] removed@.take(i as int - 1)[jj]).vertex
                < g.valid@.len() && !g.valid@[removed@.take(i as int - 1)[jj].vertex as int] && (
            removed@.take(i as int - 1)[jj].included ==> sol.flag@[removed@.take(
                i as int - 1,
            )[jj].vertex as int])) by {
                assert(removed@.take(i as int - 1)[jj] == removed@.take(i as int)[jj]);
                assert(removed@.take(i as int)[jj].vertex != e.vertex);
            }
            assert forall|jj: int, kk: int|
                0 <= jj < kk < i - 1 implies (#[trigger] removed@.take(i as int - 1)[jj]).vertex
                != (#[trigger] removed@.take(i as int - 1)[kk]).vertex by {
                assert(removed@.take(i as int - 1)[jj] == removed@.take(i as int)[jj]);
                assert(removed@.take(i as int - 1)[kk] == removed@.take(i as int)[kk]);
            }
            assert(log_ok(removed@.take(i as int - 1), g.valid@, sol.flag@));
        }
        i = i - 1;
    }
    proof {
        assert(removed@.take(0) =~= Seq::<UndoEntry>::empty());
    }
}

/// Exhaustive branch-and-bound step on the graph/solution triple.
///
/// Reduces to a fixpoint, completes or branches on the active vertex of
/// maximum degree (including it, or including all of its active
/// neighbors), and undoes every mutation before returning: graph
/// activation, degrees and the working solution are restored exactly,
/// and only `best` may change, monotonically towards smaller
/// cardinality.  The search is exact: the final bound undercuts the
/// working cardinality plus any vertex cover of the active subgraph, and
/// whenever it improves, some such cover achieves it.  `best` itself is
/// rewritten only on strict improvement — otherwise it returns
/// bit-identical — and an improved `best` extends the entry solution by
/// bits that cover the entry graph's active edges.
pub fn branch(g: &mut Graph, current: &mut Solution, best: &mut Solution)
    requires
        old(g).wf(),
        old(current).wf(),
        old(best).wf(),
        old(current).len() == old(g).n(),
        old(best).len() == old(g).n(),
        compat(*old(g), *old(current)),
    ensures
        final(g).wf(),
        final(current).wf(),
        final(g).n() == old(g).n(),
        final(g).neighbors == old(g).neighbors,
        final(g).names == old(g).names,
        final(g).valid@ == old(g).valid@,
        final(g).degrees@ == old(g).degrees@,
        final(g).vertices == old(g).vertices,
        final(current).flag@ == old(current).flag@,
        final(current).size == old(current).size,
        final(best).wf(),
        final(best).len() == old(best).len(),
        final(best).size <= old(best).size,
        forall|s: Set<int>|
            #[trigger] is_cover(*old(g), s) ==> final(best).size <= old(current).size + s.len(),
        final(best).size < old(best).size ==> exists|s: Set<int>|
            #[trigger] is_cover(*old(g), s) && old(current).size + s.len() <= final(best).size,
        final(best).size == old(best).size ==> *final(best) == *old(best),
        final(best).size < old(best).size ==> forall|w: int|
            0 <= w < old(current).len() && (#[trigger] old(current).flag@[w])
                ==> final(best).flag@[w],
        final(best).size < old(best).size ==> forall|a: int, b: int|
            #[trigger] active_edge(*old(g), a, b) ==> final(best).flag@[a] || final(best).flag@[b],
    decreases old(g).vertices,
{
    let ghost g0 = *old(g);
    let ghost c0 = *old(current);
    let ghost nbs0 = nbs_of(g0);
    let ghost st0 = state_of(g0, c0);
    let mut removed: Vec<UndoEntry> = Vec::new();
    proof {
        assert forall|a: int, b: int| #[trigger] active_edge(g0, a, b) implies (current.flag@[a]
            || current.flag@[b] || (g.valid@[a] && g.valid@[b])) by {}
    }
    loop
        invariant_except_break
            g0.wf(),
            c0.wf(),
            c0.len() == g0.n(),
            nbs0 == nbs_of(g0),
            st0 == state_of(g0, c0),
            g.wf(),
            current.wf(),
            current.len() == g0.n(),
            g.n() == g0.n(),
            g.neighbors == g0.neighbors,
            g.names == g0.names,
            compat(*g, *current),
            log_ok(removed@, g.valid@, current.flag@),
            replay(state_of(*g, *current), nbs0, removed@) == st0,
            g.vertices <= g0.vertices,
            current.size >= c0.size,
            forall|j: int|
                #[trigger] has_cover(*g, j) == has_cover(g0, j + current.size - c0.size),
            forall|w: int| 0 <= w < c0.len() ==> ((#[trigger] c0.flag@[w]) ==> current.flag@[w]),
            forall|w: int| 0 <= w < g0.n() ==> ((#[trigger] g.valid@[w]) ==> g0.valid@[w]),
            edges_settled(g0, g.valid@, current.flag@),
            *best == *old(best),
        ensures
            g0.wf(),
            g.wf(),
            current.wf(),
            current.len() == g0.n(),
            g.n() == g0.n(),
            g.neighbors == g0.neighbors,
            g.names == g0.names,
            compat(*g, *current),
            log_ok(removed@, g.valid@, current.flag@),
            replay(state_of(*g, *current), nbs0, removed@) == st0,
            g.vertices <= g0.vertices,
            current.size >= c0.size,
            forall|j: int|
                #[trigger] has_cover(*g, j) == has_cover(g0, j + current.size - c0.size),
            forall|w: int| 0 <= w < c0.len() ==> ((#[trigger] c0.flag@[w]) ==> current.flag@[w]),
            forall|w: int| 0 <= w < g0.n() ==> ((#[trigger] g.valid@[w]) ==> g0.valid@[w]),
            edges_settled(g0, g.valid@, current.flag@),
            *best == *old(best),
        decreases g.vertices,
    {
        let ghost pre_g = *g;
        let ghost pre_c = *current;
        let ghost pre_r = removed@;
        let changed = deg1_reduce(g, current, &mut removed);
        proof {
            let delta = removed@.skip(pre_r.len() as int);
            lemma_nbs_congruent(pre_g, g0);
            lemma_replay_append(state_of(*g, *current), nbs0, pre_r, delta);
            assert(removed@ =~= pre_r + delta);
            assert(replay(state_of(*g, *current), nbs0, removed@) == st0);
            assert forall|j: int| #[trigger] has_cover(*g, j) == has_cover(
                g0,
                j + current.size - c0.size,
            ) by {
                assert(has_cover(*g, j) == has_cover(pre_g, j + current.size - pre_c.size));
                assert(has_cover(pre_g, j + current.size - pre_c.size) == has_cover(
                    g0,
                    j + current.size - pre_c.size + pre_c.size - c0.size,
                ));
            }
            assert forall|w: int| 0 <= w < c0.len() implies ((#[trigger] c0.flag@[w])
                ==> current.flag@[w]) by {
                if c0.flag@[w] {
                    assert(pre_c.flag@[w]);
                }
            }
            assert forall|w: int| 0 <= w < g0.n() implies ((#[trigger] g.valid@[w])
                ==> g0.valid@[w]) by {
                if g.valid@[w] {
                    assert(pre_g.valid@[w]);
                }
            }
            assert forall|a: int, b: int| #[trigger] active_edge(g0, a, b) implies (
            current.flag@[a] || current.flag@[b] || (g.valid@[a] && g.valid@[b])) by {
                assert(pre_c.flag@[a] || pre_c.flag@[b] || (pre_g.valid@[a] && pre_g.valid@[b]));
                if pre_c.flag@[a] || pre_c.flag@[b] {
                } else {
                    assert(pre_g.nb(a) == g0.nb(a));
                    assert(pre_g.nb(b) == g0.nb(b));
                    assert(active_edge(pre_g, a, b));
                }
            }
        }
        if !changed {
            break ;
        }
    }
    let ghost st_mid = state_of(*g, *current);
    let ghost mid_g = *g;
    let ghost mid_c = *current;
    proof {
        assert(forall|j: int|
            #[trigger] has_cover(mid_g, j) == has_cover(g0, j + mid_c.size - c0.size));
    }

    if g.vertices == 0 {
        if *current < *best {
            *best = current.clone();
        }
        proof {
            broadcast use vstd::set::group_set_axioms;

            assert forall|w: int| 0 <= w < g0.n() implies !mid_g.valid@[w] by {
                if mid_g.valid@[w] {
                    lemma_count_true_pos_at(mid_g.valid@, g0.n(), w);
                }
            }
            let es = Set::<int>::empty();
            assert forall|a: int, b: int| #[trigger] active_edge(mid_g, a, b) implies es.contains(
                a,
            ) || es.contains(b) by {
                assert(!mid_g.valid@[a]);
            }
            assert(is_cover(mid_g, es) && es.len() <= 0);
            assert(has_cover(mid_g, 0));
            assert(best.size <= mid_c.size);
            assert forall|s: Set<int>| #[trigger] is_cover(g0, s) implies best.size <= c0.size
                + s.len() by {
                lemma_cover_push_through(g0, c0.size as int, mid_g, mid_c.size as int, s);
                let t = choose|t: Set<int>| #[trigger] is_cover(mid_g, t) && mid_c.size + t.len()
                    <= c0.size + s.len();
            }
            if best.size < old(best).size {
                lemma_cover_lift_through(
                    g0,
                    c0.size as int,
                    mid_g,
                    mid_c.size as int,
                    0,
                    best.size as int,
                );
                assert(best.flag@ == mid_c.flag@);
                assert forall|w: int|
                    0 <= w < c0.len() && c0.flag@[w] implies #[trigger] best.flag@[w] by {
                    assert(mid_c.flag@[w]);
                }
                assert forall|a: int, b: int| #[trigger] active_edge(g0, a, b) implies best.flag@[a]
                    || best.flag@[b] by {
                    assert(mid_c.flag@[a] || mid_c.flag@[b] || (mid_g.valid@[a]
                        && mid_g.valid@[b]));
                    assert(!mid_g.valid@[a]);
                }
            } else {
                assert(*best == *old(best));
            }
        }
        let ghost pre_g = *g;
        undo_removed(g, current, &removed);
        proof {
            lemma_nbs_congruent(pre_g, g0);
            assert(state_of(*g, *current) == st0);
            assert(g.valid@ == g0.valid@ && g.degrees@ == g0.degrees@ && g.vertices == g0.vertices
                && current.flag@ == c0.flag@ && current.size == c0.size);
        }
        return ;
    }
    let v_max = max_degree(g);

    // Include branch: take the chosen vertex itself.
    let ghost pre_inc_g = *g;
    let ghost pre_inc_c = *current;
    select_vertex(g, v_max, current);
    let ghost st1 = state_of(*g, *current);
    let ghost inc_g = *g;
    let ghost inc_c = *current;
    let ghost b0 = best.size;
    proof {
        lemma_nbs_congruent(pre_inc_g, g0);
        assert(undo_step(st1, nbs0, (UndoEntry { vertex: v_max, included: true })) == st_mid);
        assert(compat(*g, *current));
        assert forall|a: int, b: int| #[trigger] active_edge(g0, a, b) implies (current.flag@[a]
            || current.flag@[b] || (g.valid@[a] && g.valid@[b])) by {
            assert(mid_c.flag@[a] || mid_c.flag@[b] || (mid_g.valid@[a] && mid_g.valid@[b]));
            if a == v_max as int || b == v_max as int {
                assert(current.flag@[v_max as int]);
            }
        }
        assert(edges_settled(g0, inc_g.valid@, inc_c.flag@));
        assert forall|w: int|
            0 <= w < c0.len() && c0.flag@[w] implies #[trigger] inc_c.flag@[w] by {
            assert(mid_c.flag@[w]);
        }
    }
    branch(g, current, best);
    let ghost b1 = best.size;
    proof {
        assert(state_of(*g, *current) =~= st1);
    }
    let ghost pre_unsel_g = *g;
    unselect_vertex(g, v_max, current);
    proof {
        lemma_nbs_congruent(pre_unsel_g, g0);
        assert(state_of(*g, *current) == st_mid);
        assert(g.valid@ == mid_g.valid@ && g.degrees@ == mid_g.degrees@ && g.vertices
            == mid_g.vertices && current.flag@ == mid_c.flag@ && current.size == mid_c.size);
        assert(compat(*g, *current));
        assert(log_ok(removed@, g.valid@, current.flag@));
        assert(edges_settled(g0, g.valid@, current.flag@));
        assert forall|w: int| 0 <= w < g0.n() implies ((#[trigger] st_mid.valid[w])
            ==> g0.valid@[w]) by {
            assert(st_mid.valid[w] == mid_g.valid@[w]);
        }
    }

    // Exclude branch: excluding the chosen vertex forces every one of its
    // active neighbors into the solution.
    let mut removed2: Vec<UndoEntry> = Vec::new();
    let ghost mut sel: Set<int> = Set::empty();
    let len = g.neighbors[v_max].len();
    let mut j: usize = 0;
    while j < len
        invariant
            g0.wf(),
            nbs0 == nbs_of(g0),
            mid_g.wf(),
            mid_g.neighbors == g0.neighbors,
            mid_g.valid@ == st_mid.valid,
            len == mid_g.nb(v_max as int).len(),
            sel.finite(),
            current.size == mid_c.size + sel.len(),
            forall|w: int|
                #[trigger] sel.contains(w) ==> 0 <= w < g0.n() && st_mid.valid[w] && occ(
                    mid_g.nb(v_max as int),
                    w,
                ) >= 1 && !g.valid@[w],
            forall|w: int|
                0 <= w < g0.n() && !sel.contains(w) ==> g.valid@[w] == #[trigger] st_mid.valid[w],
            forall|idx: int|
                0 <= idx < j ==> (st_mid.valid[#[trigger] mid_g.nb(v_max as int)[idx] as int]
                    ==> sel.contains(mid_g.nb(v_max as int)[idx] as int)),
            c0.len() == g0.n(),
            forall|w: int| 0 <= w < g0.n() ==> ((#[trigger] st_mid.valid[w]) ==> g0.valid@[w]),
            forall|w: int| 0 <= w < c0.len() ==> ((#[trigger] c0.flag@[w]) ==> current.flag@[w]),
            edges_settled(g0, g.valid@, current.flag@),
            g.wf(),
            current.wf(),
            current.len() == g0.n(),
            g.n() == g0.n(),
            g.neighbors == g0.neighbors,
            g.names == g0.names,
            v_max < g0.n(),
            len == g.nb(v_max as int).len(),
            j <= len,
            compat(*g, *current),
            log_ok(removed2@, g.valid@, current.flag@),
            replay(state_of(*g, *current), nbs0, removed2@) == st_mid,
            st_mid.active <= g0.vertices,
            st_mid.valid[v_max as int],
            st_mid.active == count_true(st_mid.valid, g0.n()),
            st_mid.valid.len() == g0.n(),
            forall|w: int| 0 <= w < g0.n() ==> (#[trigger] g.valid@[w] ==> st_mid.valid[w]),
            g.vertices <= st_mid.active,
            best.wf(),
            best.len() == old(best).len(),
            best.size <= old(best).size,
        decreases len - j,
    {
        let u = g.neighbors[v_max][j];
        if g.valid[u] {
            let ghost pre_g = *g;
            let ghost pre_s = *current;
            let ghost pre_r = removed2@;
            select_vertex(g, u, current);
            removed2.push(UndoEntry { vertex: u, included: true });
            proof {
                let e = UndoEntry { vertex: u, included: true };
                lemma_nbs_congruent(pre_g, g0);
                lemma_replay_push(state_of(*g, *current), nbs0, pre_r, e);
                assert(removed2@ =~= pre_r.push(e));
                lemma_log_ok_push(
                    pre_r,
                    pre_g.valid@,
                    pre_s.flag@,
                    e,
                    g.valid@,
                    current.flag@,
                );
                assert(log_ok(removed2@, g.valid@, current.flag@));
                assert(compat(*g, *current));
                assert forall|a: int, b: int| #[trigger] active_edge(g0, a, b) implies (
                current.flag@[a] || current.flag@[b] || (g.valid@[a] && g.valid@[b])) by {
                    assert(pre_s.flag@[a] || pre_s.flag@[b] || (pre_g.valid@[a]
                        && pre_g.valid@[b]));
                    if a == u as int || b == u as int {
                        assert(current.flag@[u as int]);
                    }
                }
            }
            proof {
                broadcast use vstd::set::group_set_axioms;

                assert(mid_g.nb(v_max as int)[j as int] == u);
                lemma_occ_at(mid_g.nb(v_max as int), j as int);
                assert(!sel.contains(u as int));
                sel = sel.insert(u as int);
            }
        } else {
            proof {
                assert(mid_g.nb(v_max as int)[j as int] == u);
                if st_mid.valid[u as int] {
                    assert(sel.contains(u as int));
                }
            }
        }
        j = j + 1;
    }
    proof {
        assert forall|b: int|
            0 <= b < g0.n() && mid_g.valid@[b] && occ(mid_g.nb(v_max as int), b)
                >= 1 implies #[trigger] sel.contains(b) by {
            lemma_occ_pos_witness(mid_g.nb(v_max as int), b);
            let idx = choose|i: int|
                0 <= i < mid_g.nb(v_max as int).len() && mid_g.nb(v_max as int)[i] == b;
            assert(st_mid.valid[mid_g.nb(v_max as int)[idx] as int]);
        }
    }
    if g.valid[v_max] {
        let ghost pre_g = *g;
        let ghost pre_s = *current;
        let ghost pre_r = removed2@;
        g.invalidate_vertex(v_max);
        removed2.push(UndoEntry { vertex: v_max, included: false });
        proof {
            let e = UndoEntry { vertex: v_max, included: false };
            assert forall|x: int| 0 <= x < g0.n() implies nbs0[x] == pre_g.nb(x) by {
                assert(nbs0[x] == g0.nb(x));
            }
            lemma_deactivate_inverts(pre_g, *g, pre_s, *current, nbs0, e);
            lemma_replay_push(state_of(*g, *current), nbs0, pre_r, e);
            assert(removed2@ =~= pre_r.push(e));
            lemma_log_ok_push(
                pre_r,
                pre_g.valid@,
                pre_s.flag@,
                e,
                g.valid@,
                current.flag@,
            );
            assert(log_ok(removed2@, g.valid@, current.flag@));
            assert forall|a: int, b: int| #[trigger] active_edge(g0, a, b) implies (
            current.flag@[a] || current.flag@[b] || (g.valid@[a] && g.valid@[b])) by {
                assert(pre_s.flag@[a] || pre_s.flag@[b] || (pre_g.valid@[a] && pre_g.valid@[b]));
                if !(pre_s.flag@[a] || pre_s.flag@[b]) && (a == v_max as int || b
                    == v_max as int) {
                    let c = if a == v_max as int {
                        b
                    } else {
                        a
                    };
                    assert(pre_g.nb(a) == g0.nb(a));
                    assert(pre_g.nb(b) == g0.nb(b));
                    if b == v_max as int && a != v_max as int {
                        assert(occ(g0.nb(a), b) == occ(g0.nb(b), a));
                    }
                    assert(occ(g0.nb(v_max as int), c) > 0);
                    if pre_g.valid@[c] {
                        assert(st_mid.valid[c]);
                        assert(mid_g.nb(v_max as int) == g0.nb(v_max as int));
                        assert(sel.contains(c));
                        assert(!pre_g.valid@[c]);
                        assert(false);
                    }
                }
            }
        }
    }
    let ghost exc_g = *g;
    let ghost exc_c = *current;
    proof {
        lemma_count_true_lt(g.valid@, st_mid.valid, g0.n(), v_max as int);
        assert(g.vertices < st_mid.active);
        assert(exclude_shape(mid_g, exc_g, v_max as int, sel));
        assert(edges_settled(g0, exc_g.valid@, exc_c.flag@));
        assert(forall|w: int|
            0 <= w < c0.len() ==> ((#[trigger] c0.flag@[w]) ==> exc_c.flag@[w]));
    }
    branch(g, current, best);
    let ghost b2 = best.size;
    let ghost pre_undo2_g = *g;
    undo_removed(g, current, &removed2);
    proof {
        lemma_nbs_congruent(pre_undo2_g, g0);
        assert(state_of(*g, *current) == st_mid);
        assert(g.valid@ == mid_g.valid@ && g.degrees@ == mid_g.degrees@ && g.vertices
            == mid_g.vertices && current.flag@ == mid_c.flag@ && current.size == mid_c.size);
        assert(compat(*g, *current));
        assert(log_ok(removed@, g.valid@, current.flag@));
    }
    proof {
        if best.size == b0 {
            assert(b1 == b0 && b2 == b1);
            assert(*best == *old(best));
        }
        if best.size < b0 {
            if b2 < b1 {
                assert forall|w: int|
                    0 <= w < c0.len() && c0.flag@[w] implies #[trigger] best.flag@[w] by {
                    assert(exc_c.flag@[w]);
                }
                assert forall|a: int, b: int| #[trigger] active_edge(g0, a, b) implies best.flag@[a]
                    || best.flag@[b] by {
                    assert(exc_c.flag@[a] || exc_c.flag@[b] || (exc_g.valid@[a]
                        && exc_g.valid@[b]));
                    if exc_g.valid@[a] && exc_g.valid@[b] {
                        assert(exc_g.nb(a) == g0.nb(a));
                        assert(exc_g.nb(b) == g0.nb(b));
                        assert(active_edge(exc_g, a, b));
                    }
                }
            } else {
                assert(b2 == b1 && b1 < b0);
                assert forall|w: int|
                    0 <= w < c0.len() && c0.flag@[w] implies #[trigger] best.flag@[w] by {
                    assert(inc_c.flag@[w]);
                }
                assert forall|a: int, b: int| #[trigger] active_edge(g0, a, b) implies best.flag@[a]
                    || best.flag@[b] by {
                    assert(inc_c.flag@[a] || inc_c.flag@[b] || (inc_g.valid@[a]
                        && inc_g.valid@[b]));
                    if inc_g.valid@[a] && inc_g.valid@[b] {
                        assert(inc_g.nb(a) == g0.nb(a));
                        assert(inc_g.nb(b) == g0.nb(b));
                        assert(active_edge(inc_g, a, b));
                    }
                }
            }
        }
    }
    proof {
        broadcast use vstd::set::group_set_axioms;

        assert forall|s: Set<int>| #[trigger] is_cover(g0, s) implies best.size <= c0.size
            + s.len() by {
            lemma_cover_push_through(g0, c0.size as int, mid_g, mid_c.size as int, s);
            let t = choose|t: Set<int>| #[trigger] is_cover(mid_g, t) && mid_c.size + t.len()
                <= c0.size + s.len();
            if t.contains(v_max as int) {
                lemma_cover_shrinks_without_vertex(mid_g, inc_g, v_max as int, t);
                assert(is_cover(inc_g, t.remove(v_max as int)));
                assert(b1 <= inc_c.size + t.remove(v_max as int).len());
                assert(b2 <= b1);
            } else {
                lemma_cover_exclude_restrict(mid_g, exc_g, v_max as int, sel, t);
                assert(is_cover(exc_g, t.difference(sel)));
                assert(b2 <= exc_c.size + t.difference(sel).len());
            }
        }
        if best.size < b0 {
            if b2 < b1 {
                let s2 = choose|s: Set<int>|
                    #[trigger] is_cover(exc_g, s) && exc_c.size + s.len() <= b2;
                lemma_cover_exclude_lift(mid_g, exc_g, v_max as int, sel, s2);
                assert(is_cover(mid_g, s2.union(sel)) && s2.union(sel).len() <= s2.union(
                    sel,
                ).len());
                assert(has_cover(mid_g, s2.union(sel).len() as int));
                lemma_cover_lift_through(
                    g0,
                    c0.size as int,
                    mid_g,
                    mid_c.size as int,
                    s2.union(sel).len() as int,
                    best.size as int,
                );
            } else {
                assert(b1 < b0);
                let s1 = choose|s: Set<int>|
                    #[trigger] is_cover(inc_g, s) && inc_c.size + s.len() <= b1;
                lemma_cover_grows_with_vertex(mid_g, inc_g, v_max as int, s1);
                assert(is_cover(mid_g, s1.insert(v_max as int)) && s1.insert(v_max as int).len()
                    <= s1.insert(v_max as int).len());
                assert(has_cover(mid_g, s1.insert(v_max as int).len() as int));
                lemma_cover_lift_through(
                    g0,
                    c0.size as int,
                    mid_g,
                    mid_c.size as int,
                    s1.insert(v_max as int).len() as int,
                    best.size as int,
                );
            }
        }
    }

    // Undo the reductions of the first step on this, the last exit path.
    let ghost pre_undo_g = *g;
    undo_removed(g, current, &removed);
    proof {
        lemma_nbs_congruent(pre_undo_g, g0);
        assert(state_of(*g, *current) == st0);
        assert(g.valid@ == g0.valid@ && g.degrees@ == g0.degrees@ && g.vertices == g0.vertices
            && current.flag@ == c0.flag@ && current.size == c0.size);
    }
}

} // verus!
