//! Counting helpers shared by the graph and solver specifications:
//! occurrence counts in a sequence, true-bit counts, and counts of
//! entries that point at active vertices.

use vstd::prelude::*;

verus! {

/// Number of occurrences of `x` among the entries of `s`.
pub open spec fn occ(s: Seq<usize>, x: int) -> nat
    decreases s.len(),
{
    if s.len() == 0 {
        0
    } else {
        occ(s.drop_last(), x) + if s.last() == x {
            1nat
        } else {
            0nat
        }
    }
}

/// Number of `true` entries of `s`.
pub open spec fn count_true(s: Seq<bool>, n: int) -> nat
    decreases n,
{
    if n <= 0 {
        0
    } else {
        count_true(s, n - 1) + if s[n - 1] {
            1nat
        } else {
            0nat
        }
    }
}

/// Number of entries of `s` that index a `true` slot of `valid`.
pub open spec fn count_active(s: Seq<usize>, valid: Seq<bool>) -> nat
    decreases s.len(),
{
    if s.len() == 0 {
        0
    } else {
        count_active(s.drop_last(), valid) + if valid[s.last() as int] {
            1nat
        } else {
            0nat
        }
    }
}

/// A value that no entry equals has occurrence count zero.
pub proof fn lemma_occ_absent(s: Seq<usize>, x: int)
    requires
        forall|i: int| 0 <= i < s.len() ==> #[trigger] s[i] != x,
    ensures
        occ(s, x) == 0,
    decreases s.len(),
{
    if s.len() > 0 {
        lemma_occ_absent(s.drop_last(), x);
    }
}

/// An entry witnesses a positive occurrence count for its value.
pub proof fn lemma_occ_at(s: Seq<usize>, i: int)
    requires
        0 <= i < s.len(),
    ensures
        occ(s, s[i] as int) >= 1,
    decreases s.len(),
{
    if i < s.len() - 1 {
        lemma_occ_at(s.drop_last(), i);
    }
}

/// A positive occurrence count names an entry carrying the value.
pub proof fn lemma_occ_pos_witness(s: Seq<usize>, x: int)
    requires
        occ(s, x) >= 1,
    ensures
        exists|i: int| 0 <= i < s.len() && s[i] == x,
    decreases s.len(),
{
    if s.len() > 0 {
        if s.last() == x {
            assert(s[s.len() - 1] == x);
        } else {
            lemma_occ_pos_witness(s.drop_last(), x);
            let i = choose|i: int| 0 <= i < s.drop_last().len() && s.drop_last()[i] == x;
            assert(s[i] == x);
        }
    }
}

pub proof fn lemma_occ_take_step(s: Seq<usize>, i: int, x: int)
    requires
        0 <= i < s.len(),
    ensures
        occ(s.take(i + 1), x) == occ(s.take(i), x) + if s[i] == x {
            1nat
        } else {
            0nat
        },
{
    assert(s.take(i + 1).drop_last() =~= s.take(i));
    assert(s.take(i + 1).last() == s[i]);
}

pub proof fn lemma_occ_take_all(s: Seq<usize>, x: int)
    ensures
        occ(s.take(s.len() as int), x) == occ(s, x),
{
    assert(s.take(s.len() as int) =~= s);
}

pub proof fn lemma_occ_take_le(s: Seq<usize>, i: int, x: int)
    requires
        0 <= i <= s.len(),
    ensures
        occ(s.take(i), x) <= occ(s, x),
    decreases s.len() - i,
{
    if i < s.len() {
        lemma_occ_take_step(s, i, x);
        lemma_occ_take_le(s, i + 1, x);
    } else {
        lemma_occ_take_all(s, x);
    }
}

/// `count_active` bounds the occurrence count of any active vertex.
pub proof fn lemma_occ_le_count_active(s: Seq<usize>, valid: Seq<bool>, x: int)
    requires
        0 <= x < valid.len(),
        valid[x],
    ensures
        occ(s, x) <= count_active(s, valid),
    decreases s.len(),
{
    if s.len() > 0 {
        lemma_occ_le_count_active(s.drop_last(), valid, x);
    }
}

pub proof fn lemma_count_active_le_len(s: Seq<usize>, valid: Seq<bool>)
    ensures
        count_active(s, valid) <= s.len(),
    decreases s.len(),
{
    if s.len() > 0 {
        lemma_count_active_le_len(s.drop_last(), valid);
    }
}

/// Deactivating vertex `v` lowers each `count_active` by the number of
/// occurrences of `v`, provided all entries stay within range.
pub proof fn lemma_count_active_update_false(s: Seq<usize>, valid: Seq<bool>, v: int)
    requires
        0 <= v < valid.len(),
        valid[v],
        forall|i: int| 0 <= i < s.len() ==> 0 <= #[trigger] s[i] < valid.len(),
    ensures
        count_active(s, valid.update(v, false)) + occ(s, v) == count_active(s, valid),
    decreases s.len(),
{
    if s.len() > 0 {
        lemma_count_active_update_false(s.drop_last(), valid, v);
    }
}

/// Reactivating vertex `v` raises each `count_active` by the number of
/// occurrences of `v`, provided all entries stay within range.
pub proof fn lemma_count_active_update_true(s: Seq<usize>, valid: Seq<bool>, v: int)
    requires
        0 <= v < valid.len(),
        !valid[v],
        forall|i: int| 0 <= i < s.len() ==> 0 <= #[trigger] s[i] < valid.len(),
    ensures
        count_active(s, valid.update(v, true)) == count_active(s, valid) + occ(s, v),
    decreases s.len(),
{
    if s.len() > 0 {
        lemma_count_active_update_true(s.drop_last(), valid, v);
    }
}

/// Appending one entry to the adjacency data extends `count_active`.
pub proof fn lemma_count_active_push(s: Seq<usize>, valid: Seq<bool>, x: usize)
    ensures
        count_active(s.push(x), valid) == count_active(s, valid) + if valid[x as int] {
            1nat
        } else {
            0nat
        },
{
    assert(s.push(x).drop_last() =~= s);
}

pub proof fn lemma_occ_push(s: Seq<usize>, x: usize, y: int)
    ensures
        occ(s.push(x), y) == occ(s, y) + if x == y {
            1nat
        } else {
            0nat
        },
{
    assert(s.push(x).drop_last() =~= s);
}

/// A sequence none of whose entries is active has no active entries.
pub proof fn lemma_count_active_absent(s: Seq<usize>, valid: Seq<bool>)
    requires
        forall|i: int| 0 <= i < s.len() ==> !valid[#[trigger] s[i] as int],
    ensures
        count_active(s, valid) == 0,
    decreases s.len(),
{
    if s.len() > 0 {
        lemma_count_active_absent(s.drop_last(), valid);
    }
}

/// `count_active` only reads `valid` at the entries of `s`.
pub proof fn lemma_count_active_congruence(s: Seq<usize>, valid1: Seq<bool>, valid2: Seq<bool>)
    requires
        forall|i: int| 0 <= i < s.len() ==> valid1[#[trigger] s[i] as int] == valid2[s[i] as int],
    ensures
        count_active(s, valid1) == count_active(s, valid2),
    decreases s.len(),
{
    if s.len() > 0 {
        lemma_count_active_congruence(s.drop_last(), valid1, valid2);
    }
}

pub proof fn lemma_count_true_update(s: Seq<bool>, n: int, v: int, b: bool)
    requires
        0 <= v < n <= s.len(),
    ensures
        count_true(s.update(v, b), n) == count_true(s, n) - (if s[v] {
            1int
        } else {
            0int
        }) + (if b {
            1int
        } else {
            0int
        }),
    decreases n,
{
    if n > 0 {
        if v < n - 1 {
            lemma_count_true_update(s, n - 1, v, b);
        } else {
            lemma_count_true_same(s.update(v, b), s, n - 1);
        }
    }
}

/// `count_true` up to `n` only depends on the first `n` entries.
pub proof fn lemma_count_true_same(s1: Seq<bool>, s2: Seq<bool>, n: int)
    requires
        forall|i: int| 0 <= i < n ==> s1[i] == s2[i],
    ensures
        count_true(s1, n) == count_true(s2, n),
    decreases n,
{
    if n > 0 {
        lemma_count_true_same(s1, s2, n - 1);
    }
}

pub proof fn lemma_count_true_le(s: Seq<bool>, n: int)
    requires
        n >= 0,
    ensures
        count_true(s, n) <= n,
    decreases n,
{
    if n > 0 {
        lemma_count_true_le(s, n - 1);
    }
}

/// A positive `count_true` names a `true` entry.
pub proof fn lemma_count_true_pos(s: Seq<bool>, n: int)
    requires
        count_true(s, n) > 0,
    ensures
        exists|v: int| 0 <= v < n && s[v],
    decreases n,
{
    if n > 0 {
        if s[n - 1] {
        } else {
            lemma_count_true_pos(s, n - 1);
        }
    }
}

/// A set bit within range witnesses a positive population count.
pub proof fn lemma_count_true_pos_at(s: Seq<bool>, n: int, v: int)
    requires
        0 <= v < n,
        s[v],
    ensures
        count_true(s, n) >= 1,
    decreases n,
{
    if v < n - 1 {
        lemma_count_true_pos_at(s, n - 1, v);
    }
}

/// Disjoint bit-vectors fill at most the whole range between them.
pub proof fn lemma_count_true_disjoint(s1: Seq<bool>, s2: Seq<bool>, n: int)
    requires
        n >= 0,
        forall|w: int| 0 <= w < n ==> !(s1[w] && s2[w]),
    ensures
        count_true(s1, n) + count_true(s2, n) <= n,
    decreases n,
{
    if n > 0 {
        lemma_count_true_disjoint(s1, s2, n - 1);
    }
}

/// Pointwise implication between bit-vectors bounds their counts.
pub proof fn lemma_count_true_mono(s1: Seq<bool>, s2: Seq<bool>, n: int)
    requires
        forall|w: int| 0 <= w < n ==> (s1[w] ==> s2[w]),
    ensures
        count_true(s1, n) <= count_true(s2, n),
    decreases n,
{
    if n > 0 {
        lemma_count_true_mono(s1, s2, n - 1);
    }
}

/// A strict pointwise difference makes the count strictly smaller.
pub proof fn lemma_count_true_lt(s1: Seq<bool>, s2: Seq<bool>, n: int, v: int)
    requires
        0 <= v < n,
        forall|w: int| 0 <= w < n ==> (s1[w] ==> s2[w]),
        !s1[v],
        s2[v],
    ensures
        count_true(s1, n) < count_true(s2, n),
    decreases n,
{
    if v == n - 1 {
        lemma_count_true_mono(s1, s2, n - 1);
    } else {
        lemma_count_true_lt(s1, s2, n - 1, v);
    }
}

pub proof fn lemma_count_true_push(s: Seq<bool>, b: bool)
    ensures
        count_true(s.push(b), s.len() as int + 1) == count_true(s, s.len() as int) + if b {
            1nat
        } else {
            0nat
        },
{
    lemma_count_true_same(s.push(b), s, s.len() as int);
}

} // verus!
