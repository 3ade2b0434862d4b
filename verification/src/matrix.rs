//! Dense upper-triangular adjacency matrices, with odometer-style
//! enumeration of all matrices and of bipartite completions.

use vstd::prelude::*;

verus! {

/// Square bit-matrix indexed by ordered vertex pairs `(v, u)` with
/// `v <= u`; only the strict upper triangle is ever stepped by the
/// enumerators.
pub struct AdjMatrix {
    pub m: Vec<bool>,
    pub size: usize,
}

/// Distinct in-range cells use distinct slots of the flat bit-vector.
proof fn lemma_cell_distinct(size: int, a: int, b: int, c: int, d: int)
    by (nonlinear_arith)
    requires
        0 <= a,
        0 <= c,
        0 <= b < size,
        0 <= d < size,
        a != c || b != d,
    ensures
        a * size + b != c * size + d,
{
}

/// An in-range cell's slot lies within the flat bit-vector.
proof fn lemma_cell_in_range(size: int, a: int, b: int)
    by (nonlinear_arith)
    requires
        0 <= a < size,
        0 <= b < size,
    ensures
        0 <= a * size + b < size * size,
{
}

impl AdjMatrix {
    /// The bit stored for the cell `(v, u)`.
    pub open spec fn mat(self, v: int, u: int) -> bool {
        self.m@[v * self.size + u]
    }

    pub open spec fn wf(self) -> bool {
        self.m@.len() == self.size * self.size
    }

    /// No strict-upper cell is clear: the enumeration has reached its last
    /// matrix.
    pub open spec fn upper_all_true(self) -> bool {
        forall|i: int, j: int| 0 <= i < j < self.size ==> self.mat(i, j)
    }

    /// `(i, j)` is the first clear strict-upper cell in row-major order.
    pub open spec fn first_open_cell(self, i: int, j: int) -> bool {
        &&& 0 <= i < j < self.size
        &&& !self.mat(i, j)
        &&& forall|a: int, b: int|
            0 <= a < b < self.size && (a < i || (a == i && b < j)) ==> self.mat(a, b)
    }

    /// All-false matrix of the given size.
    pub fn new(size: usize) -> (s: AdjMatrix)
        requires
            size * size <= usize::MAX,
        ensures
            s.wf(),
            s.size == size,
            forall|a: int, b: int| 0 <= a < size && 0 <= b < size ==> !s.mat(a, b),
    {
        let m: Vec<bool> = vec![false; size * size];
        let s = AdjMatrix { m, size };
        proof {
            assert forall|a: int, b: int| 0 <= a < size && 0 <= b < size implies !s.mat(a, b) by {
                lemma_cell_in_range(size as int, a, b);
                assert(cloned::<bool>(false, s.m@[a * size + b]));
            }
        }
        s
    }

    /// Reads the bit of the ordered cell `(v, u)`.
    pub fn has_edge(&self, v: usize, u: usize) -> (r: bool)
        requires
            self.wf(),
            v <= u,
            u < self.size,
        ensures
            r == self.mat(v as int, u as int),
    {
        proof {
            vstd::std_specs::vec::axiom_spec_len(&self.m);
            lemma_cell_in_range(self.size as int, v as int, u as int);
        }
        self.m[v * self.size + u]
    }

    /// Writes the bit of the ordered cell `(v, u)`; every other cell keeps
    /// its value.
    pub fn set_edge(&mut self, v: usize, u: usize, val: bool)
        requires
            old(self).wf(),
            v <= u,
            u < old(self).size,
        ensures
            final(self).wf(),
            final(self).size == old(self).size,
            final(self).mat(v as int, u as int) == val,
            forall|a: int, b: int|
                0 <= a < old(self).size && 0 <= b < old(self).size && !(a == v && b == u)
                    ==> final(self).mat(a, b) == old(self).mat(a, b),
    {
        proof {
            vstd::std_specs::vec::axiom_spec_len(&self.m);
            lemma_cell_in_range(self.size as int, v as int, u as int);
        }
        self.m[v * self.size + u] = val;
        proof {
            assert forall|a: int, b: int|
                0 <= a < old(self).size && 0 <= b < old(self).size && !(a == v && b == u) implies self.mat(
                a,
                b,
            ) == old(self).mat(a, b) by {
                lemma_cell_in_range(self.size as int, a, b);
                lemma_cell_distinct(self.size as int, a, b, v as int, u as int);
            }
        }
    }

    /// Steps the strict upper triangle to the next matrix in binary-counter
    /// order: the first clear cell in row-major order is set, every cell
    /// before it is cleared, and every later cell keeps its value.  Returns
    /// `false` exactly when the triangle was entirely set, in which case it
    /// is left entirely clear.
    pub fn advance(&mut self) -> (r: bool)
        requires
            old(self).wf(),
        ensures
            final(self).wf(),
            final(self).size == old(self).size,
            r == !old(self).upper_all_true(),
            forall|a: int, b: int|
                0 <= a < old(self).size && 0 <= b < old(self).size && !(a < b) ==> final(self).mat(a, b) == old(self).mat(a, b),
            !r ==> forall|a: int, b: int| 0 <= a < b < old(self).size ==> !final(self).mat(a, b),
            r ==> exists|i: int, j: int|
                {
                    &&& #[trigger] old(self).first_open_cell(i, j)
                    &&& final(self).mat(i, j)
                    &&& forall|a: int, b: int|
                        0 <= a < b < old(self).size && (a < i || (a == i && b < j)) ==> !final(self).mat(a, b)
                    &&& forall|a: int, b: int|
                        0 <= a < b < old(self).size && (a > i || (a == i && b > j)) ==> final(self).mat(a, b) == old(self).mat(a, b)
                },
    {
        let ghost m0 = *old(self);
        let size = self.size;
        let mut i: usize = 0;
        let mut advanced = false;
        let ghost mut gfi: int = 0;
        let ghost mut gfj: int = 0;
        while i < size
            invariant_except_break
                m0.wf(),
                size == m0.size,
                self.size == m0.size,
                self.wf(),
                i <= size,
                !advanced,
                forall|a: int, b: int| 0 <= a < b < size && a < i ==> m0.mat(a, b),
                forall|a: int, b: int| 0 <= a < b < size && a < i ==> !self.mat(a, b),
                forall|a: int, b: int| 0 <= a < b < size && a >= i ==> self.mat(a, b) == m0.mat(
                    a,
                    b,
                ),
                forall|a: int, b: int|
                    0 <= a < size && 0 <= b < size && !(a < b) ==> self.mat(a, b) == m0.mat(a, b),
            ensures
                size == m0.size,
                self.size == m0.size,
                self.wf(),
                forall|a: int, b: int|
                    0 <= a < size && 0 <= b < size && !(a < b) ==> self.mat(a, b) == m0.mat(a, b),
                !advanced ==> forall|a: int, b: int| 0 <= a < b < size ==> m0.mat(a, b),
                !advanced ==> forall|a: int, b: int| 0 <= a < b < size ==> !self.mat(a, b),
                advanced ==> m0.first_open_cell(gfi, gfj) && self.mat(gfi, gfj) && (forall|
                    a: int,
                    b: int,
                |
                    0 <= a < b < size && (a < gfi || (a == gfi && b < gfj)) ==> !self.mat(a, b))
                    && (forall|a: int, b: int|
                    0 <= a < b < size && (a > gfi || (a == gfi && b > gfj)) ==> self.mat(a, b)
                        == m0.mat(a, b)),
            decreases size - i,
        {
            let mut j: usize = i + 1;
            while j < size
                invariant_except_break
                    m0.wf(),
                    size == m0.size,
                    self.size == m0.size,
                    self.wf(),
                    i < size,
                    i + 1 <= j <= size,
                    !advanced,
                    forall|a: int, b: int| 0 <= a < b < size && a < i ==> m0.mat(a, b),
                    forall|a: int, b: int| 0 <= a < b < size && a < i ==> !self.mat(a, b),
                    forall|b: int| i < b < j ==> m0.mat(i as int, b),
                    forall|b: int| i < b < j ==> !self.mat(i as int, b),
                    forall|b: int| j <= b < size ==> self.mat(i as int, b) == m0.mat(i as int, b),
                    forall|a: int, b: int| 0 <= a < b < size && a > i ==> self.mat(a, b) == m0.mat(
                        a,
                        b,
                    ),
                    forall|a: int, b: int|
                        0 <= a < size && 0 <= b < size && !(a < b) ==> self.mat(a, b) == m0.mat(
                            a,
                            b,
                        ),
                ensures
                    size == m0.size,
                    self.size == m0.size,
                    self.wf(),
                    i < size,
                    forall|a: int, b: int| 0 <= a < b < size && a < i ==> m0.mat(a, b),
                    forall|a: int, b: int| 0 <= a < b < size && a < i ==> !self.mat(a, b),
                    forall|a: int, b: int| 0 <= a < b < size && a > i ==> self.mat(a, b) == m0.mat(
                        a,
                        b,
                    ),
                    forall|a: int, b: int|
                        0 <= a < size && 0 <= b < size && !(a < b) ==> self.mat(a, b) == m0.mat(
                            a,
                            b,
                        ),
                    !advanced ==> j >= size && (forall|b: int| i < b < size ==> m0.mat(i as int, b))
                        && (forall|b: int| i < b < size ==> !self.mat(i as int, b)),
                    advanced ==> gfi == i && i < gfj < size && !m0.mat(i as int, gfj) && self.mat(
                        i as int,
                        gfj,
                    ) && (forall|b: int| i < b < gfj ==> m0.mat(i as int, b)) && (forall|b: int|
                        i < b < gfj ==> !self.mat(i as int, b)) && (forall|b: int|
                        gfj < b < size ==> self.mat(i as int, b) == m0.mat(i as int, b)),
                decreases size - j,
            {
                if !self.has_edge(i, j) {
                    self.set_edge(i, j, true);
                    advanced = true;
                    proof {
                        gfi = i as int;
                        gfj = j as int;
                    }
                    break ;
                } else {
                    self.set_edge(i, j, false);
                }
                j = j + 1;
            }
            if advanced {
                break ;
            }
            i = i + 1;
        }
        proof {
            if advanced {
                assert(m0.first_open_cell(gfi, gfj));
            }
        }
        advanced
    }

    /// Steps the bipartite block — cells `(i, j)` with `i < split_idx <= j`
    /// — to the next assignment in the same binary-counter order.  Returns
    /// `false` exactly when the block was entirely set, in which case it is
    /// left entirely clear.
    pub fn next_bipartite(&mut self, split_idx: usize) -> (r: bool)
        requires
            old(self).wf(),
            split_idx <= old(self).size,
        ensures
            final(self).wf(),
            final(self).size == old(self).size,
            r == !(forall|a: int, b: int|
                0 <= a < split_idx && split_idx <= b < old(self).size ==> old(self).mat(a, b)),
            forall|a: int, b: int|
                0 <= a < old(self).size && 0 <= b < old(self).size && !(a < split_idx && split_idx <= b) ==> final(self).mat(a, b) == old(self).mat(a, b),
            !r ==> forall|a: int, b: int|
                0 <= a < split_idx && split_idx <= b < old(self).size ==> !final(self).mat(a, b),
            r ==> exists|i: int, j: int|
                {
                    &&& 0 <= i < split_idx <= j < old(self).size
                    &&& !old(self).mat(i, j)
                    &&& forall|a: int, b: int|
                        0 <= a < split_idx && split_idx <= b < old(self).size && (a < i || (a == i
                            && b < j)) ==> old(self).mat(a, b)
                    &&& final(self).mat(i, j)
                    &&& forall|a: int, b: int|
                        0 <= a < split_idx && split_idx <= b < old(self).size && (a < i || (a == i
                            && b < j)) ==> !final(self).mat(a, b)
                    &&& forall|a: int, b: int|
                        0 <= a < split_idx && split_idx <= b < old(self).size && (a > i || (a == i
                            && b > j)) ==> final(self).mat(a, b) == old(self).mat(a, b)
                },
    {
        let ghost m0 = *old(self);
        let size = self.size;
        let mut i: usize = 0;
        let mut advanced = false;
        let ghost mut gfi: int = 0;
        let ghost mut gfj: int = 0;
        while i < split_idx
            invariant_except_break
                m0.wf(),
                size == m0.size,
                self.size == m0.size,
                self.wf(),
                split_idx <= size,
                i <= split_idx,
                !advanced,
                forall|a: int, b: int| 0 <= a < i && split_idx <= b < size ==> m0.mat(a, b),
                forall|a: int, b: int| 0 <= a < i && split_idx <= b < size ==> !self.mat(a, b),
                forall|a: int, b: int| i <= a < split_idx && split_idx <= b < size ==> self.mat(
                    a,
                    b,
                ) == m0.mat(a, b),
                forall|a: int, b: int|
                    0 <= a < size && 0 <= b < size && !(a < split_idx && split_idx <= b)
                        ==> self.mat(a, b) == m0.mat(a, b),
            ensures
                size == m0.size,
                self.size == m0.size,
                self.wf(),
                split_idx <= size,
                forall|a: int, b: int|
                    0 <= a < size && 0 <= b < size && !(a < split_idx && split_idx <= b)
                        ==> self.mat(a, b) == m0.mat(a, b),
                !advanced ==> forall|a: int, b: int|
                    0 <= a < split_idx && split_idx <= b < size ==> m0.mat(a, b),
                !advanced ==> forall|a: int, b: int|
                    0 <= a < split_idx && split_idx <= b < size ==> !self.mat(a, b),
                advanced ==> 0 <= gfi < split_idx <= gfj < size && !m0.mat(gfi, gfj) && self.mat(
                    gfi,
                    gfj,
                ) && (forall|a: int, b: int|
                    0 <= a < split_idx && split_idx <= b < size && (a < gfi || (a == gfi && b
                        < gfj)) ==> m0.mat(a, b)) && (forall|a: int, b: int|
                    0 <= a < split_idx && split_idx <= b < size && (a < gfi || (a == gfi && b
                        < gfj)) ==> !self.mat(a, b)) && (forall|a: int, b: int|
                    0 <= a < split_idx && split_idx <= b < size && (a > gfi || (a == gfi && b
                        > gfj)) ==> self.mat(a, b) == m0.mat(a, b)),
            decreases split_idx - i,
        {
            let mut j: usize = split_idx;
            while j < size
                invariant_except_break
                    m0.wf(),
                    size == m0.size,
                    self.size == m0.size,
                    self.wf(),
                    split_idx <= size,
                    i < split_idx,
                    split_idx <= j <= size,
                    !advanced,
                    forall|a: int, b: int| 0 <= a < i && split_idx <= b < size ==> m0.mat(a, b),
                    forall|a: int, b: int| 0 <= a < i && split_idx <= b < size ==> !self.mat(a, b),
                    forall|b: int| split_idx <= b < j ==> m0.mat(i as int, b),
                    forall|b: int| split_idx <= b < j ==> !self.mat(i as int, b),
                    forall|b: int| j <= b < size ==> self.mat(i as int, b) == m0.mat(i as int, b),
                    forall|a: int, b: int| i < a < split_idx && split_idx <= b < size ==> self.mat(
                        a,
                        b,
                    ) == m0.mat(a, b),
                    forall|a: int, b: int|
                        0 <= a < size && 0 <= b < size && !(a < split_idx && split_idx <= b)
                            ==> self.mat(a, b) == m0.mat(a, b),
                ensures
                    size == m0.size,
                    self.size == m0.size,
                    self.wf(),
                    i < split_idx <= size,
                    forall|a: int, b: int| 0 <= a < i && split_idx <= b < size ==> m0.mat(a, b),
                    forall|a: int, b: int| 0 <= a < i && split_idx <= b < size ==> !self.mat(a, b),
                    forall|a: int, b: int| i < a < split_idx && split_idx <= b < size ==> self.mat(
                        a,
                        b,
                    ) == m0.mat(a, b),
                    forall|a: int, b: int|
                        0 <= a < size && 0 <= b < size && !(a < split_idx && split_idx <= b)
                            ==> self.mat(a, b) == m0.mat(a, b),
                    !advanced ==> j >= size && (forall|b: int|
                        split_idx <= b < size ==> m0.mat(i as int, b)) && (forall|b: int|
                        split_idx <= b < size ==> !self.mat(i as int, b)),
                    advanced ==> gfi == i && split_idx <= gfj < size && !m0.mat(i as int, gfj)
                        && self.mat(i as int, gfj) && (forall|b: int|
                        split_idx <= b < gfj ==> m0.mat(i as int, b)) && (forall|b: int|
                        split_idx <= b < gfj ==> !self.mat(i as int, b)) && (forall|b: int|
                        gfj < b < size ==> self.mat(i as int, b) == m0.mat(i as int, b)),
                decreases size - j,
            {
                if !self.has_edge(i, j) {
                    self.set_edge(i, j, true);
                    advanced = true;
                    proof {
                        gfi = i as int;
                        gfj = j as int;
                    }
                    break ;
                } else {
                    self.set_edge(i, j, false);
                }
                j = j + 1;
            }
            if advanced {
                break ;
            }
            i = i + 1;
        }
        advanced
    }
}

} // verus!
