//! Border profiles: the solver's optimum for every activation pattern of a
//! designated border vertex set.

use vstd::prelude::*;

use crate::counts::{count_true, lemma_count_true_disjoint, lemma_occ_take_step, occ};
use crate::graph::Graph;
use crate::reduction::{
    has_cover, is_cover, lemma_active_set_is_cover, lemma_has_cover_congruent,
};
use crate::solve::{branch, compat, select_vertex, Solution};

verus! {

/// `2^n`.
pub open spec fn pow2(n: nat) -> nat
    decreases n,
{
    if n == 0 {
        1
    } else {
        2 * pow2((n - 1) as nat)
    }
}

/// The bit-vector read as a binary number, least significant bit first.
pub open spec fn bits_value(s: Seq<bool>) -> nat
    decreases s.len(),
{
    if s.len() == 0 {
        0
    } else {
        (if s[0] {
            1nat
        } else {
            0nat
        }) + 2 * bits_value(s.skip(1))
    }
}

pub proof fn lemma_bits_value_bound(s: Seq<bool>)
    ensures
        bits_value(s) < pow2(s.len() as nat),
    decreases s.len(),
{
    if s.len() > 0 {
        lemma_bits_value_bound(s.skip(1));
    }
}

/// Flipping bit `i` moves the value by `2^i`.
pub proof fn lemma_bits_value_update(s: Seq<bool>, i: int, b: bool)
    requires
        0 <= i < s.len(),
    ensures
        bits_value(s.update(i, b)) == bits_value(s) - (if s[i] {
            pow2(i as nat)
        } else {
            0nat
        }) + (if b {
            pow2(i as nat)
        } else {
            0nat
        }),
    decreases i,
{
    if i == 0 {
        assert(s.update(0, b).skip(1) =~= s.skip(1));
    } else {
        assert(s.update(i, b).skip(1) =~= s.skip(1).update(i - 1, b));
        lemma_bits_value_update(s.skip(1), i - 1, b);
    }
}

pub proof fn lemma_bits_value_all_false(s: Seq<bool>)
    requires
        forall|i: int| 0 <= i < s.len() ==> !s[i],
    ensures
        bits_value(s) == 0,
    decreases s.len(),
{
    if s.len() > 0 {
        lemma_bits_value_all_false(s.skip(1));
    }
}

/// Patterns of one length with equal values are equal: the counter visits
/// each pattern once.
pub proof fn lemma_bits_value_injective(s1: Seq<bool>, s2: Seq<bool>)
    requires
        s1.len() == s2.len(),
        bits_value(s1) == bits_value(s2),
    ensures
        s1 == s2,
    decreases s1.len(),
{
    if s1.len() > 0 {
        assert(s1[0] == s2[0]);
        lemma_bits_value_injective(s1.skip(1), s2.skip(1));
        assert forall|i: int| 0 <= i < s1.len() implies s1[i] == s2[i] by {
            if i > 0 {
                assert(s1.skip(1)[i - 1] == s2.skip(1)[i - 1]);
            }
        }
        assert(s1 =~= s2);
    } else {
        assert(s1 =~= s2);
    }
}

/// Steps a border activation pattern to the next one in binary-counter
/// order, least significant flag first.  Returns `false` exactly when the
/// pattern was the last one (all flags set), leaving all flags clear.
pub fn advance_border_solution(border: &mut Vec<bool>) -> (r: bool)
    ensures
        final(border)@.len() == old(border)@.len(),
        r ==> bits_value(final(border)@) == bits_value(old(border)@) + 1,
        !r ==> bits_value(old(border)@) == pow2(old(border)@.len() as nat) - 1 && bits_value(
            final(border)@,
        ) == 0,
{
    let ghost b0 = old(border)@;
    let len = border.len();
    let mut i: usize = 0;
    while i < len
        invariant_except_break
            border@.len() == b0.len(),
            len == b0.len(),
            i <= len,
            forall|j: int| 0 <= j < i ==> b0[j],
            forall|j: int| 0 <= j < i ==> !border@[j],
            forall|j: int| i <= j < len ==> border@[j] == b0[j],
            bits_value(border@) + pow2(i as nat) == bits_value(b0) + 1,
        ensures
            border@.len() == b0.len(),
            len == b0.len(),
            i <= len,
            i < len ==> bits_value(border@) == bits_value(b0) + 1,
            i >= len ==> (forall|j: int| 0 <= j < len ==> b0[j]) && (forall|j: int|
                0 <= j < len ==> !border@[j]) && bits_value(border@) + pow2(len as nat)
                == bits_value(b0) + 1,
        decreases len - i,
    {
        let ghost pre = border@;
        if border[i] {
            border[i] = false;
            proof {
                lemma_bits_value_update(pre, i as int, false);
            }
        } else {
            border[i] = true;
            proof {
                lemma_bits_value_update(pre, i as int, true);
            }
            break ;
        }
        i = i + 1;
    }
    if i < len {
        true
    } else {
        proof {
            lemma_bits_value_all_false(border@);
        }
        false
    }
}

/// Optimum sizes indexed by border activation pattern.
pub struct Profile(pub Vec<usize>);

impl Profile {
    /// Two profiles are equivalent when they have the same length and
    /// differ entry-wise by one constant offset.
    pub fn equivalent(&self, other: &Profile) -> (r: bool)
        ensures
            r == (self.0@.len() == other.0@.len() && forall|i: int|
                0 <= i < self.0@.len() ==> #[trigger] (self.0@[i] + other.0@[0]) == other.0@[i]
                    + self.0@[0]),
    {
        let n = self.0.len();
        if n != other.0.len() {
            return false;
        }
        if n == 0 {
            return true;
        }
        let s0 = self.0[0];
        let o0 = other.0[0];
        let mut i: usize = 0;
        while i < n
            invariant
                n == self.0@.len(),
                n == other.0@.len(),
                n > 0,
                i <= n,
                s0 == self.0@[0],
                o0 == other.0@[0],
                forall|j: int| 0 <= j < i ==> #[trigger] (self.0@[j] + o0) == other.0@[j] + s0,
            decreases n - i,
        {
            if (self.0[i] as u128) + (o0 as u128) != (other.0[i] as u128) + (s0 as u128) {
                return false;
            }
            i = i + 1;
        }
        true
    }
}

/// Forces every currently active neighbor of `b` into the solution,
/// deactivating each; `b` itself is only touched where it is its own
/// neighbor.
fn force_neighbors(g: &mut Graph, b: usize, sol: &mut Solution)
    requires
        old(g).wf(),
        b < old(g).n(),
        old(sol).wf(),
        old(sol).len() == old(g).n(),
        compat(*old(g), *old(sol)),
    ensures
        final(g).wf(),
        final(sol).wf(),
        final(sol).len() == old(g).n(),
        final(g).n() == old(g).n(),
        final(g).neighbors == old(g).neighbors,
        final(g).names == old(g).names,
        compat(*final(g), *final(sol)),
        forall|w: int|
            0 <= w < old(g).n() ==> #[trigger] final(g).valid@[w] == (old(g).valid@[w] && occ(
                old(g).nb(b as int),
                w,
            ) == 0),
        forall|w: int|
            0 <= w < old(g).n() ==> #[trigger] final(sol).flag@[w] == (old(sol).flag@[w] || (old(
                g,
            ).valid@[w] && occ(old(g).nb(b as int), w) > 0)),
{
    let ghost g1 = *old(g);
    let ghost s1 = *old(sol);
    let ghost ns = g1.nb(b as int);
    let len = g.neighbors[b].len();
    let mut t: usize = 0;
    proof {
        assert forall|w: int| 0 <= w < g1.n() implies occ(ns.take(0), w) == 0 by {
            assert(ns.take(0) =~= Seq::<usize>::empty());
        }
    }
    while t < len
        invariant
            g1.wf(),
            b < g1.n(),
            s1.wf(),
            s1.len() == g1.n(),
            compat(g1, s1),
            ns == g1.nb(b as int),
            len == ns.len(),
            t <= len,
            g.wf(),
            sol.wf(),
            sol.len() == g1.n(),
            g.n() == g1.n(),
            g.neighbors == g1.neighbors,
            g.names == g1.names,
            compat(*g, *sol),
            forall|w: int|
                0 <= w < g1.n() ==> #[trigger] g.valid@[w] == (g1.valid@[w] && occ(
                    ns.take(t as int),
                    w,
                ) == 0),
            forall|w: int|
                0 <= w < g1.n() ==> #[trigger] sol.flag@[w] == (s1.flag@[w] || (g1.valid@[w] && occ(
                    ns.take(t as int),
                    w,
                ) > 0)),
        decreases len - t,
    {
        let u = g.neighbors[b][t];
        proof {
            lemma_occ_take_step(ns, t as int, u as int);
            assert forall|w: int|
                0 <= w < g1.n() && w != u implies occ(ns.take(t as int + 1), w) == occ(
                ns.take(t as int),
                w,
            ) by {
                lemma_occ_take_step(ns, t as int, w);
            }
        }
        if g.valid[u] {
            select_vertex(g, u, sol);
        }
        t = t + 1;
    }
    proof {
        assert forall|w: int| 0 <= w < g1.n() implies occ(ns.take(len as int), w) == occ(ns, w) by {
            assert(ns.take(len as int) =~= ns);
        }
    }
}

/// The prepared subproblem for one border pattern, after the first `k`
/// border vertices: the activation bits and the forced-inclusion bits.
/// A set flag deactivates the border vertex alone; a clear one first
/// forces every still-active neighbor in and out of activity.
pub open spec fn prep(g: Graph, border: Seq<usize>, pat: Seq<bool>, k: int) -> (Seq<bool>, Seq<
    bool,
>)
    decreases k,
{
    if k <= 0 {
        (g.valid@, Seq::new(g.valid@.len(), |w: int| false))
    } else {
        let prev = prep(g, border, pat, k - 1);
        let bb = border[k - 1] as int;
        if pat[k - 1] {
            (prev.0.update(bb, false), prev.1)
        } else {
            (
                Seq::new(prev.0.len(), |w: int| prev.0[w] && occ(g.nb(bb), w) == 0).update(
                    bb,
                    false,
                ),
                Seq::new(prev.1.len(), |w: int| prev.1[w] || (prev.0[w] && occ(g.nb(bb), w) > 0)),
            )
        }
    }
}

pub proof fn lemma_prep_len(g: Graph, border: Seq<usize>, pat: Seq<bool>, k: int)
    requires
        k <= border.len(),
        forall|i: int| 0 <= i < border.len() ==> (#[trigger] border[i]) < g.valid@.len(),
    ensures
        prep(g, border, pat, k).0.len() == g.valid@.len(),
        prep(g, border, pat, k).1.len() == g.valid@.len(),
    decreases k,
{
    if k > 0 {
        lemma_prep_len(g, border, pat, k - 1);
    }
}

/// A graph together with the ids of its designated border vertices.
pub struct ProfileSearcher {
    pub g: Graph,
    pub border: Vec<usize>,
}

impl ProfileSearcher {
    pub open spec fn wf(self) -> bool {
        &&& self.g.wf()
        &&& forall|i: int| 0 <= i < self.border@.len() ==> (#[trigger] self.border@[i]) < self.g.n()
    }

    /// `gp` carries exactly the subproblem this searcher prepares for the
    /// border pattern `pat`: the prepared activation bits over the
    /// searcher's own adjacency lists.
    pub open spec fn prepared_for(self, pat: Seq<bool>, gp: Graph) -> bool {
        &&& gp.valid@ == prep(self.g, self.border@, pat, self.border@.len() as int).0
        &&& gp.neighbors@.len() == self.g.n()
        &&& forall|v: int| 0 <= v < self.g.n() ==> #[trigger] gp.nb(v) == self.g.nb(v)
    }

    /// `val` is the forced-inclusion count of the pattern plus the least
    /// cover size achievable on the prepared subproblem.
    pub open spec fn entry_describes(self, pat: Seq<bool>, gp: Graph, val: int) -> bool {
        let base = count_true(
            prep(self.g, self.border@, pat, self.border@.len() as int).1,
            self.g.n(),
        ) as int;
        &&& base <= val
        &&& has_cover(gp, val - base)
        &&& forall|j: int| j < val - base ==> !(#[trigger] has_cover(gp, j))
    }

    pub fn new(g: Graph, border: Vec<usize>) -> (s: ProfileSearcher)
        ensures
            s.g == g,
            s.border == border,
    {
        ProfileSearcher { g, border }
    }

    /// Solves one subproblem per border activation pattern: a set border
    /// flag deactivates the border vertex, a clear one forces all of its
    /// active neighbors into the solution before the vertex is removed.
    /// The profile holds one result per pattern, in binary-counter order:
    /// the pattern's forced-inclusion count plus the least cover size
    /// achievable on the prepared subproblem.  The border must stay below
    /// the word size: the profile has one entry per subset of it.
    pub fn search(&self) -> (p: Profile)
        requires
            self.wf(),
            self.border@.len() < 64,
        ensures
            p.0@.len() == pow2(self.border@.len() as nat),
            forall|i: int| 0 <= i < p.0@.len() ==> #[trigger] p.0@[i] <= self.g.n(),
            forall|pat: Seq<bool>, gp: Graph|
                pat.len() == self.border@.len() && #[trigger] self.prepared_for(pat, gp)
                    ==> self.entry_describes(pat, gp, p.0@[bits_value(pat) as int] as int),
    {
        let profile_size = self.border.len();
        let mut res: Vec<usize> = Vec::new();
        let mut border: Vec<bool> = Vec::new();
        let mut k: usize = 0;
        while k < profile_size
            invariant
                k <= profile_size,
                border@.len() == k,
                forall|j: int| 0 <= j < k ==> !border@[j],
            decreases profile_size - k,
        {
            border.push(false);
            k = k + 1;
        }
        proof {
            lemma_bits_value_all_false(border@);
            lemma_bits_value_bound(border@);
        }
        loop
            invariant_except_break
                self.wf(),
                self.border@.len() < 64,
                profile_size == self.border@.len(),
                border@.len() == self.border@.len(),
                res@.len() == bits_value(border@),
                bits_value(border@) < pow2(border@.len() as nat),
                forall|i: int| 0 <= i < res@.len() ==> #[trigger] res@[i] <= self.g.n(),
                forall|pat: Seq<bool>, gp: Graph|
                    pat.len() == profile_size && bits_value(pat) < res@.len()
                        && #[trigger] self.prepared_for(pat, gp) ==> self.entry_describes(
                        pat,
                        gp,
                        res@[bits_value(pat) as int] as int,
                    ),
            ensures
                res@.len() == pow2(self.border@.len() as nat),
                forall|i: int| 0 <= i < res@.len() ==> #[trigger] res@[i] <= self.g.n(),
                forall|pat: Seq<bool>, gp: Graph|
                    pat.len() == profile_size && bits_value(pat) < res@.len()
                        && #[trigger] self.prepared_for(pat, gp) ==> self.entry_describes(
                        pat,
                        gp,
                        res@[bits_value(pat) as int] as int,
                    ),
            decreases pow2(border@.len() as nat) - bits_value(border@),
        {
            let ghost pat0 = border@;
            let mut gprime = self.g.clone();
            let mut s = Solution::new(&gprime);
            let mut best = Solution::max(&gprime);
            proof {
                assert(gprime.valid@ == prep(self.g, self.border@, pat0, 0).0);
                assert(s.flag@ =~= prep(self.g, self.border@, pat0, 0).1);
            }
            let mut idx: usize = 0;
            while idx < profile_size
                invariant
                    self.wf(),
                    profile_size == self.border@.len(),
                    border@.len() == profile_size,
                    pat0 == border@,
                    idx <= profile_size,
                    gprime.wf(),
                    gprime.n() == self.g.n(),
                    gprime.neighbors@.len() == self.g.n(),
                    forall|v: int| 0 <= v < self.g.n() ==> #[trigger] gprime.nb(v) == self.g.nb(v),
                    s.wf(),
                    s.len() == gprime.n(),
                    compat(gprime, s),
                    best.wf(),
                    best.len() == gprime.n(),
                    best.size == self.g.n(),
                    gprime.valid@ == prep(self.g, self.border@, pat0, idx as int).0,
                    s.flag@ == prep(self.g, self.border@, pat0, idx as int).1,
                decreases profile_size - idx,
            {
                let b = self.border[idx];
                let ghost pre_g = gprime;
                let ghost stepv = prep(self.g, self.border@, pat0, idx as int + 1);
                if border[idx] {
                    gprime.invalidate_vertex(b);
                    proof {
                        assert(pat0[idx as int]);
                        assert(gprime.valid@ =~= stepv.0);
                        assert(s.flag@ == stepv.1);
                    }
                } else {
                    force_neighbors(&mut gprime, b, &mut s);
                    let ghost mid_g = gprime;
                    let ghost mid_s = s;
                    gprime.invalidate_vertex(b);
                    proof {
                        lemma_prep_len(self.g, self.border@, pat0, idx as int);
                        assert(!pat0[idx as int]);
                        let bb = b as int;
                        let prev = prep(self.g, self.border@, pat0, idx as int);
                        let midspec = Seq::new(
                            prev.0.len(),
                            |w: int| prev.0[w] && occ(self.g.nb(bb), w) == 0,
                        );
                        assert forall|w: int| 0 <= w < self.g.n() implies mid_g.valid@[w]
                            == midspec[w] by {
                            assert(pre_g.nb(bb) == self.g.nb(bb));
                        }
                        assert(mid_g.valid@ =~= midspec);
                        assert(gprime.valid@ =~= midspec.update(bb, false));
                        assert(gprime.valid@ == stepv.0);
                        let flagspec = Seq::new(
                            prev.1.len(),
                            |w: int| prev.1[w] || (prev.0[w] && occ(self.g.nb(bb), w) > 0),
                        );
                        assert forall|w: int| 0 <= w < self.g.n() implies mid_s.flag@[w]
                            == flagspec[w] by {
                            assert(pre_g.nb(bb) == self.g.nb(bb));
                        }
                        assert(s.flag@ =~= flagspec);
                        assert(s.flag@ == stepv.1);
                    }
                }
                proof {
                    assert forall|v: int|
                        0 <= v < self.g.n() implies #[trigger] gprime.nb(v) == self.g.nb(v) by {
                        assert(gprime.nb(v) == pre_g.nb(v));
                    }
                }
                idx = idx + 1;
            }
            let ghost call_g = gprime;
            let ghost call_s = s;
            branch(&mut gprime, &mut s, &mut best);
            proof {
                let n = self.g.n();
                let base = call_s.size as int;
                let val = best.size as int;
                assert(call_s.flag@.len() == n);
                assert(base == count_true(
                    prep(self.g, self.border@, pat0, profile_size as int).1,
                    n,
                ) as int);
                if best.size < self.g.n() {
                    let cov = choose|t: Set<int>|
                        #[trigger] is_cover(call_g, t) && call_s.size + t.len() <= best.size;
                    assert(is_cover(call_g, cov) && cov.len() <= val - base);
                    assert(has_cover(call_g, val - base));
                } else {
                    assert(val == n);
                    lemma_active_set_is_cover(call_g);
                    assert forall|w: int|
                        0 <= w < n implies !(call_g.valid@[w] && call_s.flag@[w]) by {}
                    lemma_count_true_disjoint(call_g.valid@, call_s.flag@, n);
                    let cov = choose|t: Set<int>|
                        #[trigger] is_cover(call_g, t) && t.len() <= count_true(
                            call_g.valid@,
                            call_g.n(),
                        ) as int;
                    assert(is_cover(call_g, cov) && cov.len() <= val - base);
                    assert(has_cover(call_g, val - base));
                }
                assert forall|j: int| j < val - base implies !(#[trigger] has_cover(
                    call_g,
                    j,
                )) by {
                    if has_cover(call_g, j) {
                        let t = choose|t: Set<int>| #[trigger] is_cover(call_g, t) && t.len() <= j;
                        assert(best.size <= call_s.size + t.len());
                        assert(false);
                    }
                }
                assert(base <= val);
            }
            proof {
                vstd::std_specs::vec::axiom_spec_len(&res);
            }
            let ghost old_res = res@;
            res.push(best.size);
            proof {
                let n = self.g.n();
                let base = call_s.size as int;
                let val = best.size as int;
                assert forall|pat: Seq<bool>, gp: Graph|
                    pat.len() == profile_size && bits_value(pat) < res@.len()
                        && #[trigger] self.prepared_for(pat, gp) implies self.entry_describes(
                    pat,
                    gp,
                    res@[bits_value(pat) as int] as int,
                ) by {
                    if bits_value(pat) < old_res.len() {
                        assert(res@[bits_value(pat) as int] == old_res[bits_value(pat) as int]);
                        assert(self.entry_describes(
                            pat,
                            gp,
                            old_res[bits_value(pat) as int] as int,
                        ));
                    } else {
                        lemma_bits_value_injective(pat, pat0);
                        assert(pat == pat0);
                        assert(res@[bits_value(pat) as int] == best.size);
                        lemma_prep_len(self.g, self.border@, pat0, profile_size as int);
                        assert(gp.valid@ == call_g.valid@);
                        assert(gp.n() == call_g.n());
                        assert forall|v: int| 0 <= v < call_g.n() implies #[trigger] call_g.nb(v)
                            == gp.nb(v) by {
                            assert(call_g.nb(v) == self.g.nb(v));
                            assert(gp.nb(v) == self.g.nb(v));
                        }
                        lemma_has_cover_congruent(call_g, gp, val - base);
                        assert forall|j: int| j < val - base implies !(#[trigger] has_cover(
                            gp,
                            j,
                        )) by {
                            lemma_has_cover_congruent(call_g, gp, j);
                        }
                        assert(self.entry_describes(pat, gp, val));
                    }
                }
            }
            let more = advance_border_solution(&mut border);
            if !more {
                break ;
            }
            proof {
                lemma_bits_value_bound(border@);
            }
        }
        proof {
            assert forall|pat: Seq<bool>, gp: Graph|
                pat.len() == self.border@.len() && #[trigger] self.prepared_for(pat, gp) implies self.entry_describes(
                pat,
                gp,
                res@[bits_value(pat) as int] as int,
            ) by {
                lemma_bits_value_bound(pat);
            }
        }
        Profile(res)
    }
}

} // verus!
