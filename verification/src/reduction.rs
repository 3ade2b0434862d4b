//! Soundness of the solver's reduction rules, stated over vertex covers of
//! the active subgraph: removing an isolated vertex preserves exactly what
//! cover sizes are achievable, and resolving a pendant vertex by taking
//! its unique active neighbor trades one cover vertex for the pair.

use vstd::prelude::*;

use crate::counts::{count_active, lemma_occ_le_count_active, occ};
use crate::graph::Graph;

verus! {

/// An edge of the active subgraph: both endpoints are active and adjacent.
pub open spec fn active_edge(g: Graph, a: int, b: int) -> bool {
    &&& 0 <= a < g.n()
    &&& 0 <= b < g.n()
    &&& g.valid@[a]
    &&& g.valid@[b]
    &&& occ(g.nb(a), b) > 0
}

/// `s` is a vertex cover of the active subgraph: a finite set of active
/// vertices meeting every active edge.
pub open spec fn is_cover(g: Graph, s: Set<int>) -> bool {
    &&& s.finite()
    &&& forall|v: int| #[trigger] s.contains(v) ==> 0 <= v < g.n() && g.valid@[v]
    &&& forall|a: int, b: int| #[trigger] active_edge(g, a, b) ==> s.contains(a) || s.contains(b)
}

/// Some cover of at most `k` vertices exists.
pub open spec fn has_cover(g: Graph, k: int) -> bool {
    exists|s: Set<int>| #[trigger] is_cover(g, s) && s.len() <= k
}

/// Every active edge of the graph `gt` is either already covered by the
/// working solution's bits or still has both endpoints alive under the
/// current activation: the solver's bookkeeping discipline, which at a
/// completed leaf (nothing alive) makes the bits a cover of `gt`.
pub open spec fn edges_settled(gt: Graph, valid: Seq<bool>, flag: Seq<bool>) -> bool {
    forall|a: int, b: int|
        #[trigger] active_edge(gt, a, b) ==> flag[a] || flag[b] || (valid[a] && valid[b])
}

/// Two distinct active values contribute separately to the active count.
proof fn lemma_occ2_le_count_active(s: Seq<usize>, valid: Seq<bool>, x: int, y: int)
    requires
        0 <= x < valid.len(),
        0 <= y < valid.len(),
        x != y,
        valid[x],
        valid[y],
    ensures
        occ(s, x) + occ(s, y) <= count_active(s, valid),
    decreases s.len(),
{
    if s.len() > 0 {
        lemma_occ2_le_count_active(s.drop_last(), valid, x, y);
    }
}

/// An isolated active vertex (cached degree zero) lies on no active edge.
proof fn lemma_isolated_no_edge(g: Graph, v: int, a: int, b: int)
    requires
        g.wf(),
        0 <= v < g.n(),
        g.valid@[v],
        g.degrees@[v] == 0,
        active_edge(g, a, b),
    ensures
        a != v,
        b != v,
{
    if a == v {
        lemma_occ_le_count_active(g.nb(v), g.valid@, b);
    }
    if b == v {
        lemma_occ_le_count_active(g.nb(v), g.valid@, a);
        assert(occ(g.nb(a), b) == occ(g.nb(b), a));
    }
}

/// Removing an isolated vertex never changes the achievable cover sizes:
/// for every bound `k`, the graph with `v` deactivated admits a cover of
/// at most `k` vertices exactly when the original does.
pub proof fn lemma_isolated_reduction_sound(g0: Graph, g1: Graph, v: int, k: int)
    requires
        g0.wf(),
        0 <= v < g0.n(),
        g0.valid@[v],
        g0.degrees@[v] == 0,
        g1.neighbors == g0.neighbors,
        g1.valid@ == g0.valid@.update(v, false),
    ensures
        has_cover(g0, k) == has_cover(g1, k),
{
    broadcast use vstd::set::group_set_axioms;

    assert(g1.n() == g0.n());
    assert forall|a: int, b: int| #[trigger] active_edge(g1, a, b) implies active_edge(g0, a, b)
        && a != v && b != v by {
        assert(g1.nb(a) == g0.nb(a));
    }
    assert forall|a: int, b: int| #[trigger] active_edge(g0, a, b) implies active_edge(g1, a, b) by {
        lemma_isolated_no_edge(g0, v, a, b);
        assert(g1.nb(a) == g0.nb(a));
    }
    if has_cover(g0, k) {
        let s0 = choose|s: Set<int>| #[trigger] is_cover(g0, s) && s.len() <= k;
        let s1 = s0.remove(v);
        assert forall|a: int, b: int| #[trigger] active_edge(g1, a, b) implies s1.contains(a)
            || s1.contains(b) by {
            assert(active_edge(g0, a, b));
        }
        assert(is_cover(g1, s1));
        assert(s1.len() <= k);
        assert(has_cover(g1, k));
    }
    if has_cover(g1, k) {
        let s1 = choose|s: Set<int>| #[trigger] is_cover(g1, s) && s.len() <= k;
        assert forall|w: int| s1.contains(w) implies 0 <= w < g0.n() && g0.valid@[w] by {
            assert(g1.valid@[w]);
        }
        assert(is_cover(g0, s1));
        assert(has_cover(g0, k));
    }
}

/// Removing `d` elements of a finite set, all members, lowers its
/// cardinality by exactly `d`.
pub proof fn lemma_len_difference_subset(s: Set<int>, d: Set<int>)
    requires
        s.finite(),
        d.finite(),
        d.subset_of(s),
    ensures
        s.difference(d).finite(),
        s.difference(d).len() == s.len() - d.len(),
    decreases d.len(),
{
    broadcast use vstd::set::group_set_axioms;

    if d.len() == 0 {
        d.lemma_len0_is_empty();
        assert(s.difference(d) =~= s);
    } else {
        let x = d.choose();
        let d1 = d.remove(x);
        lemma_len_difference_subset(s.remove(x), d1);
        assert(s.difference(d) =~= s.remove(x).difference(d1));
    }
}

/// Deactivating a vertex that every considered cover contains: the cover
/// without it still covers the rest.
pub proof fn lemma_selfloop_reduction_sound(g0: Graph, g1: Graph, v: int, k: int)
    requires
        g0.wf(),
        0 <= v < g0.n(),
        g0.valid@[v],
        occ(g0.nb(v), v) >= 1,
        g1.neighbors == g0.neighbors,
        g1.valid@ == g0.valid@.update(v, false),
    ensures
        has_cover(g0, k) == has_cover(g1, k - 1),
{
    broadcast use vstd::set::group_set_axioms;

    assert(g1.n() == g0.n());
    assert forall|a: int, b: int| #[trigger] active_edge(g1, a, b) implies active_edge(g0, a, b)
        && a != v && b != v by {
        assert(g1.nb(a) == g0.nb(a));
    }
    if has_cover(g0, k) {
        let s0 = choose|s: Set<int>| #[trigger] is_cover(g0, s) && s.len() <= k;
        assert(active_edge(g0, v, v));
        assert(s0.contains(v));
        let s1 = s0.remove(v);
        assert forall|a: int, b: int| #[trigger] active_edge(g1, a, b) implies s1.contains(a)
            || s1.contains(b) by {
            assert(active_edge(g0, a, b));
        }
        assert(is_cover(g1, s1) && s1.len() <= k - 1);
    }
    if has_cover(g1, k - 1) {
        let s1 = choose|s: Set<int>| #[trigger] is_cover(g1, s) && s.len() <= k - 1;
        let s0 = s1.insert(v);
        assert forall|a: int, b: int| #[trigger] active_edge(g0, a, b) implies s0.contains(a)
            || s0.contains(b) by {
            if a != v && b != v {
                assert(g1.valid@[a] && g1.valid@[b]);
                assert(g1.nb(a) == g0.nb(a));
                assert(active_edge(g1, a, b));
            }
        }
        assert forall|w: int| s0.contains(w) implies 0 <= w < g0.n() && g0.valid@[w] by {
            if w != v {
                assert(s1.contains(w));
                assert(g1.valid@[w]);
            }
        }
        assert(is_cover(g0, s0) && s0.len() <= k);
    }
}

/// A cover containing a chosen vertex restricts, without it, to a cover of
/// the graph with that vertex deactivated.
pub proof fn lemma_cover_shrinks_without_vertex(g0: Graph, g1: Graph, v: int, s: Set<int>)
    requires
        g0.wf(),
        0 <= v < g0.n(),
        g0.valid@[v],
        g1.neighbors == g0.neighbors,
        g1.valid@ == g0.valid@.update(v, false),
        is_cover(g0, s),
        s.contains(v),
    ensures
        is_cover(g1, s.remove(v)),
        s.remove(v).len() == s.len() - 1,
{
    broadcast use vstd::set::group_set_axioms;

    assert(g1.n() == g0.n());
    let s1 = s.remove(v);
    assert forall|a: int, b: int| #[trigger] active_edge(g1, a, b) implies s1.contains(a)
        || s1.contains(b) by {
        assert(g1.nb(a) == g0.nb(a));
        assert(active_edge(g0, a, b));
    }
}

/// A cover of the graph without a vertex extends, by that vertex, to a
/// cover of the graph with it.
pub proof fn lemma_cover_grows_with_vertex(g0: Graph, g1: Graph, v: int, s: Set<int>)
    requires
        g0.wf(),
        0 <= v < g0.n(),
        g0.valid@[v],
        g1.neighbors == g0.neighbors,
        g1.valid@ == g0.valid@.update(v, false),
        is_cover(g1, s),
    ensures
        is_cover(g0, s.insert(v)),
        s.insert(v).len() <= s.len() + 1,
{
    broadcast use vstd::set::group_set_axioms;

    assert(g1.n() == g0.n());
    let s0 = s.insert(v);
    assert forall|a: int, b: int| #[trigger] active_edge(g0, a, b) implies s0.contains(a)
        || s0.contains(b) by {
        if a != v && b != v {
            assert(g1.valid@[a] && g1.valid@[b]);
            assert(g1.nb(a) == g0.nb(a));
            assert(active_edge(g1, a, b));
        }
    }
    assert forall|w: int| s0.contains(w) implies 0 <= w < g0.n() && g0.valid@[w] by {
        if w != v {
            assert(s.contains(w));
            assert(g1.valid@[w]);
        }
    }
}

/// How the graph after an exclude branch relates to the graph before it:
/// the chosen vertex `v` and the set `sel` of its then-active neighbors
/// are deactivated and nothing else changed.
pub open spec fn exclude_shape(g0: Graph, g1: Graph, v: int, sel: Set<int>) -> bool {
    &&& g1.neighbors == g0.neighbors
    &&& g1.valid@.len() == g0.valid@.len()
    &&& 0 <= v < g0.n()
    &&& g0.valid@[v]
    &&& !g1.valid@[v]
    &&& sel.finite()
    &&& forall|w: int|
        #[trigger] sel.contains(w) ==> 0 <= w < g0.n() && g0.valid@[w] && occ(g0.nb(v), w) >= 1
            && !g1.valid@[w]
    &&& forall|w: int|
        0 <= w < g0.n() && !sel.contains(w) && w != v ==> g1.valid@[w] == #[trigger] g0.valid@[w]
}

/// Restricting a cover that avoids the chosen vertex: such a cover must
/// contain every then-active neighbor, and without them it covers the
/// graph of the exclude branch.
pub proof fn lemma_cover_exclude_restrict(g0: Graph, g1: Graph, v: int, sel: Set<int>, s: Set<int>)
    requires
        g0.wf(),
        exclude_shape(g0, g1, v, sel),
        is_cover(g0, s),
        !s.contains(v),
    ensures
        is_cover(g1, s.difference(sel)),
        s.difference(sel).len() == s.len() - sel.len(),
{
    broadcast use vstd::set::group_set_axioms;

    assert(g1.n() == g0.n());
    assert forall|w: int| #[trigger] sel.contains(w) implies s.contains(w) by {
        assert(active_edge(g0, v, w));
    }
    lemma_len_difference_subset(s, sel);
    let s1 = s.difference(sel);
    assert forall|a: int, b: int| #[trigger] active_edge(g1, a, b) implies s1.contains(a)
        || s1.contains(b) by {
        assert(g1.nb(a) == g0.nb(a));
        assert(active_edge(g0, a, b));
        assert(a != v && b != v && !sel.contains(a) && !sel.contains(b));
    }
    assert forall|w: int| s1.contains(w) implies 0 <= w < g1.n() && g1.valid@[w] by {
        assert(s.contains(w));
        assert(w != v);
    }
}

/// Lifting a cover of the exclude branch: together with all then-active
/// neighbors of the chosen vertex it covers the graph before the branch,
/// provided every such neighbor was indeed deactivated.
pub proof fn lemma_cover_exclude_lift(g0: Graph, g1: Graph, v: int, sel: Set<int>, s: Set<int>)
    requires
        g0.wf(),
        exclude_shape(g0, g1, v, sel),
        forall|b: int|
            0 <= b < g0.n() && g0.valid@[b] && occ(g0.nb(v), b) >= 1 ==> #[trigger] sel.contains(b),
        is_cover(g1, s),
    ensures
        is_cover(g0, s.union(sel)),
        s.union(sel).len() <= s.len() + sel.len(),
{
    broadcast use vstd::set::group_set_axioms;

    assert(g1.n() == g0.n());
    let s0 = s.union(sel);
    assert forall|a: int, b: int| #[trigger] active_edge(g0, a, b) implies s0.contains(a)
        || s0.contains(b) by {
        if a == v {
            assert(sel.contains(b));
        } else if b == v {
            assert(occ(g0.nb(b), a) == occ(g0.nb(a), b));
            assert(sel.contains(a));
        } else if !sel.contains(a) && !sel.contains(b) {
            assert(g1.valid@[a] && g1.valid@[b]);
            assert(g1.nb(a) == g0.nb(a));
            assert(active_edge(g1, a, b));
        }
    }
    assert forall|w: int| s0.contains(w) implies 0 <= w < g0.n() && g0.valid@[w] by {
        if s.contains(w) {
            assert(g1.valid@[w]);
            if !(0 <= w < g0.n() && g0.valid@[w]) {
                assert(!sel.contains(w) && w != v);
            }
        }
    }
    vstd::set_lib::lemma_len_union(s, sel);
}

/// Carries a cover bound across a reduction phase, downward: whatever the
/// original graph/solution pair could achieve, the reduced pair achieves
/// no worse, up to the inclusions the phase made.
pub proof fn lemma_cover_push_through(g0: Graph, c0: int, gm: Graph, cm: int, s: Set<int>)
    requires
        forall|j: int| #[trigger] has_cover(gm, j) == has_cover(g0, j + cm - c0),
        is_cover(g0, s),
    ensures
        exists|t: Set<int>| #[trigger] is_cover(gm, t) && cm + t.len() <= c0 + s.len(),
{
    assert(is_cover(g0, s) && s.len() <= s.len());
    assert(has_cover(g0, s.len() as int));
    let j = s.len() as int - (cm - c0);
    assert(has_cover(gm, j) == has_cover(g0, j + cm - c0));
    let t = choose|t: Set<int>| #[trigger] is_cover(gm, t) && t.len() <= j;
    assert(is_cover(gm, t) && cm + t.len() <= c0 + s.len());
}

/// Carries an achieved bound across a reduction phase, upward: a cover of
/// the reduced graph names a cover of the original one within the same
/// total budget.
pub proof fn lemma_cover_lift_through(g0: Graph, c0: int, gm: Graph, cm: int, k: int, b: int)
    requires
        forall|j: int| #[trigger] has_cover(gm, j) == has_cover(g0, j + cm - c0),
        has_cover(gm, k),
        cm + k <= b,
    ensures
        exists|s: Set<int>| #[trigger] is_cover(g0, s) && c0 + s.len() <= b,
{
    assert(has_cover(gm, k) == has_cover(g0, k + cm - c0));
    let s = choose|s: Set<int>| #[trigger] is_cover(g0, s) && s.len() <= k + cm - c0;
    assert(is_cover(g0, s) && c0 + s.len() <= b);
}

/// The only active edges at a pendant vertex `v` (cached degree one) run
/// to its unique active neighbor `u`.
proof fn lemma_pendant_edges(g: Graph, v: int, u: int, a: int, b: int)
    requires
        g.wf(),
        0 <= v < g.n(),
        0 <= u < g.n(),
        v != u,
        g.valid@[v],
        g.valid@[u],
        g.degrees@[v] == 1,
        occ(g.nb(v), u) >= 1,
        active_edge(g, a, b),
    ensures
        a == v ==> b == u,
        b == v ==> a == u,
{
    if a == v && b != u {
        lemma_occ2_le_count_active(g.nb(v), g.valid@, b, u);
    }
    if b == v && a != u {
        assert(occ(g.nb(a), b) == occ(g.nb(b), a));
        lemma_occ2_le_count_active(g.nb(v), g.valid@, a, u);
    }
}

/// Resolving a pendant vertex is sound and complete: if the graph has a
/// cover of at most `k` vertices, then after including the unique active
/// neighbor `u` and deactivating both `u` and the pendant vertex `v`, the
/// remainder has one of at most `k - 1`; and conversely any such cover of
/// the remainder extends by `u` alone to one of the original graph.
pub proof fn lemma_pendant_reduction_sound(g0: Graph, g2: Graph, v: int, u: int, k: int)
    requires
        g0.wf(),
        0 <= v < g0.n(),
        0 <= u < g0.n(),
        v != u,
        g0.valid@[v],
        g0.valid@[u],
        g0.degrees@[v] == 1,
        occ(g0.nb(v), u) >= 1,
        g2.neighbors == g0.neighbors,
        g2.valid@ == g0.valid@.update(u, false).update(v, false),
    ensures
        has_cover(g0, k) ==> has_cover(g2, k - 1),
        has_cover(g2, k - 1) ==> has_cover(g0, k),
{
    broadcast use vstd::set::group_set_axioms;

    assert(g2.n() == g0.n());
    assert forall|a: int, b: int| #[trigger] active_edge(g2, a, b) implies active_edge(g0, a, b)
        && a != v && b != v && a != u && b != u by {
        assert(g2.nb(a) == g0.nb(a));
    }
    if has_cover(g0, k) {
        let s0 = choose|s: Set<int>| #[trigger] is_cover(g0, s) && s.len() <= k;
        assert(active_edge(g0, v, u));
        assert(s0.contains(v) || s0.contains(u));
        let s2 = if s0.contains(u) {
            s0.remove(u).remove(v)
        } else {
            s0.remove(v)
        };
        assert forall|a: int, b: int| #[trigger] active_edge(g2, a, b) implies s2.contains(a)
            || s2.contains(b) by {
            assert(active_edge(g0, a, b));
            assert(s0.contains(a) || s0.contains(b));
        }
        assert forall|w: int| s2.contains(w) implies 0 <= w < g2.n() && g2.valid@[w] by {
            assert(s0.contains(w));
        }
        assert(is_cover(g2, s2));
        assert(s2.len() <= k - 1);
        assert(has_cover(g2, k - 1));
    }
    if has_cover(g2, k - 1) {
        let s2 = choose|s: Set<int>| #[trigger] is_cover(g2, s) && s.len() <= k - 1;
        let s0 = s2.insert(u);
        assert forall|a: int, b: int| #[trigger] active_edge(g0, a, b) implies s0.contains(a)
            || s0.contains(b) by {
            lemma_pendant_edges(g0, v, u, a, b);
            if a != v && b != v && a != u && b != u {
                assert(g2.valid@[a] && g2.valid@[b]);
                assert(g2.nb(a) == g0.nb(a));
                assert(active_edge(g2, a, b));
            }
        }
        assert forall|w: int| s0.contains(w) implies 0 <= w < g0.n() && g0.valid@[w] by {
            if w != u {
                assert(s2.contains(w));
                assert(g2.valid@[w]);
            }
        }
        assert(is_cover(g0, s0));
        assert(s0.len() <= k);
        assert(has_cover(g0, k));
    }
}

/// The set defined by the first `n` set bits has at most that many
/// elements.
proof fn lemma_bit_set_len(valid: Seq<bool>, n: int)
    requires
        0 <= n,
    ensures
        Set::new(|w: int| 0 <= w < n && valid[w]).finite(),
        Set::new(|w: int| 0 <= w < n && valid[w]).len() <= crate::counts::count_true(valid, n),
    decreases n,
{
    broadcast use vstd::set::group_set_axioms;

    if n == 0 {
        assert(Set::new(|w: int| 0 <= w < 0 && valid[w]) =~= Set::<int>::empty());
    } else {
        lemma_bit_set_len(valid, n - 1);
        let prev = Set::new(|w: int| 0 <= w < n - 1 && valid[w]);
        if valid[n - 1] {
            assert(Set::new(|w: int| 0 <= w < n && valid[w]) =~= prev.insert(n - 1));
        } else {
            assert(Set::new(|w: int| 0 <= w < n && valid[w]) =~= prev);
        }
    }
}

/// The set of all active vertices covers every active edge, and has
/// exactly as many members as the active count allows.
pub proof fn lemma_active_set_is_cover(g: Graph)
    requires
        g.wf(),
    ensures
        has_cover(g, crate::counts::count_true(g.valid@, g.n()) as int),
        has_cover(g, g.n()),
{
    broadcast use vstd::set::group_set_axioms;

    let s = Set::new(|w: int| 0 <= w < g.n() && g.valid@[w]);
    lemma_bit_set_len(g.valid@, g.n());
    crate::counts::lemma_count_true_le(g.valid@, g.n());
    assert(is_cover(g, s));
    assert(is_cover(g, s) && s.len() <= crate::counts::count_true(g.valid@, g.n()) as int);
    assert(is_cover(g, s) && s.len() <= g.n());
}

/// Covers care only about the activation bits and the adjacency lists,
/// not the rest of the graph value.
pub proof fn lemma_has_cover_congruent(g1: Graph, g2: Graph, k: int)
    requires
        g1.n() == g2.n(),
        g1.valid@ == g2.valid@,
        forall|v: int| 0 <= v < g1.n() ==> #[trigger] g1.nb(v) == g2.nb(v),
    ensures
        has_cover(g1, k) == has_cover(g2, k),
{
    assert forall|a: int, b: int| #[trigger] active_edge(g1, a, b) implies active_edge(g2, a, b) by {
        assert(g1.nb(a) == g2.nb(a));
    }
    assert forall|a: int, b: int| #[trigger] active_edge(g2, a, b) implies active_edge(g1, a, b) by {
        assert(g1.nb(a) == g2.nb(a));
    }
    if has_cover(g1, k) {
        let s = choose|s: Set<int>| #[trigger] is_cover(g1, s) && s.len() <= k;
        assert(is_cover(g2, s) && s.len() <= k);
    }
    if has_cover(g2, k) {
        let s = choose|s: Set<int>| #[trigger] is_cover(g2, s) && s.len() <= k;
        assert(is_cover(g1, s) && s.len() <= k);
    }
}

/// Optimality of a full solver run: started on an empty working solution
/// and the all-included upper bound, the search returns the least
/// achievable cover size.  The two premises are exactly what the solver's
/// contract states of its result under those entry conditions.
pub proof fn lemma_entry_run_optimal(g: Graph, b: int)
    requires
        g.wf(),
        0 <= b <= g.n(),
        forall|s: Set<int>| #[trigger] is_cover(g, s) ==> b <= s.len(),
        b < g.n() ==> exists|s: Set<int>| #[trigger] is_cover(g, s) && s.len() <= b,
    ensures
        has_cover(g, b),
        forall|k: int| #[trigger] has_cover(g, k) ==> b <= k,
{
    if b < g.n() {
        let s = choose|s: Set<int>| #[trigger] is_cover(g, s) && s.len() <= b;
        assert(is_cover(g, s) && s.len() <= b);
    } else {
        lemma_active_set_is_cover(g);
        let s = choose|s: Set<int>| #[trigger] is_cover(g, s) && s.len() <= g.n();
        assert(is_cover(g, s) && s.len() <= b);
    }
    assert forall|k: int| #[trigger] has_cover(g, k) implies b <= k by {
        let s = choose|s: Set<int>| #[trigger] is_cover(g, s) && s.len() <= k;
        assert(b <= s.len());
    }
}

} // verus!
