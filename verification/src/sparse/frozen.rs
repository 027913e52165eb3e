//! The factorization in a frozen column order, as a function of the matrix and the
//! order.
use vstd::prelude::*;

use crate::scalar::Scalar;
use crate::sparse::column::{column_upto, eliminated};
use crate::sparse::matrix::{row_value, SparseMatrix};
use crate::sparse::reach::reached;

verus! {

/// The factors after some steps: L by step and original row, U by step and earlier
/// step; `pos` is the step of each row, `usize::MAX` for a row not pivoted yet.
pub struct Stage<S> {
    pub pos: Seq<usize>,
    pub pivot_row: Seq<usize>,
    pub diag: Seq<S>,
    pub l: Seq<Seq<(usize, S)>>,
    pub u: Seq<Seq<(usize, S)>>,
}

/// A column spread over all rows.
pub open spec fn spread<S: Scalar>(col: Seq<(usize, S)>, n: nat) -> Seq<S> {
    Seq::new(n, |i: int| row_value(col, i))
}

/// The pivot after scanning the first `b` reached rows: the first row not pivoted
/// yet whose magnitude exceeds all before it, and that magnitude.
pub open spec fn pivot_scan<S: Scalar>(
    x: Seq<S>,
    pos: Seq<usize>,
    reach: Seq<usize>,
    b: nat,
) -> (Option<usize>, S)
    decreases b,
{
    if b == 0 {
        (None, S::spec_zero())
    } else {
        let (best, mag) = pivot_scan(x, pos, reach, (b - 1) as nat);
        let i = reach[b - 1];
        if pos[i as int] == usize::MAX && mag.spec_less(x[i as int].spec_abs()) {
            (Some(i), x[i as int].spec_abs())
        } else {
            (best, mag)
        }
    }
}

impl<S: Scalar> Stage<S> {
    /// Before any step.
    pub open spec fn start(n: nat) -> Stage<S> {
        Stage {
            pos: Seq::new(n, |i: int| usize::MAX),
            pivot_row: Seq::empty(),
            diag: Seq::empty(),
            l: Seq::empty(),
            u: Seq::empty(),
        }
    }

    /// The column once the reached rows from `from` on are eliminated, last first.
    pub open spec fn reduced(self, x: Seq<S>, reach: Seq<usize>, from: int) -> Seq<S>
        decreases reach.len() - from,
    {
        if from >= reach.len() {
            x
        } else {
            let y = self.reduced(x, reach, from + 1);
            let r = reach[from] as int;
            if self.pos[r] == usize::MAX || y[r].spec_is_zero() {
                y
            } else {
                eliminated(y, self.l[self.pos[r] as int], y[r])
            }
        }
    }

    /// The new column of U off the first `b` reached rows: those pivoted before, by
    /// their steps.
    pub open spec fn upper_part(self, x: Seq<S>, reach: Seq<usize>, b: nat) -> Seq<(usize, S)>
        decreases b,
    {
        if b == 0 {
            Seq::empty()
        } else {
            let part = self.upper_part(x, reach, (b - 1) as nat);
            let i = reach[b - 1] as int;
            if self.pos[i] == usize::MAX {
                part
            } else {
                part.push((self.pos[i], x[i]))
            }
        }
    }

    /// The new column of L off the first `b` reached rows: those not pivoted yet,
    /// divided by the pivot.
    pub open spec fn lower_part(self, x: Seq<S>, reach: Seq<usize>, piv: usize, b: nat) -> Seq<
        (usize, S),
    >
        decreases b,
    {
        if b == 0 {
            Seq::empty()
        } else {
            let part = self.lower_part(x, reach, piv, (b - 1) as nat);
            let i = reach[b - 1];
            if self.pos[i as int] == usize::MAX && i != piv && !x[i as int].spec_is_zero() {
                part.push((i, x[i as int].spec_over(x[piv as int])))
            } else {
                part
            }
        }
    }

    /// The rows that eliminating the column reaches, each after all the rows it
    /// feeds.
    pub open spec fn reach(self, col: Seq<(usize, S)>, n: nat) -> Seq<usize> {
        reached(self.l, self.pos, col, n, col.len()).1
    }

    /// The column after elimination.
    pub open spec fn remainder(self, col: Seq<(usize, S)>, n: nat) -> Seq<S> {
        self.reduced(spread(col, n), self.reach(col, n), 0)
    }

    /// The row the column pivots on: among the reached rows that are not pivoted yet,
    /// the first of the largest magnitude.
    pub open spec fn pivot(self, col: Seq<(usize, S)>, n: nat) -> Option<usize> {
        let reach = self.reach(col, n);
        pivot_scan(self.remainder(col, n), self.pos, reach, reach.len()).0
    }

    /// One more step, where the column has a pivot.
    pub open spec fn next(self, col: Seq<(usize, S)>, n: nat) -> Option<Stage<S>> {
        let reach = self.reach(col, n);
        let x = self.remainder(col, n);
        match self.pivot(col, n) {
            None => None,
            Some(piv) => Some(
                Stage {
                    pos: self.pos.update(piv as int, self.pivot_row.len() as usize),
                    pivot_row: self.pivot_row.push(piv),
                    diag: self.diag.push(x[piv as int]),
                    l: self.l.push(self.lower_part(x, reach, piv, reach.len())),
                    u: self.u.push(self.upper_part(x, reach, reach.len())),
                },
            ),
        }
    }
}

/// The factors after the first `k` columns in the order, where each has a pivot.
pub open spec fn stage<S: Scalar>(m: &SparseMatrix<S>, perm: Seq<usize>, k: nat) -> Option<
    Stage<S>,
>
    decreases k,
{
    let n = m.spec_dim();
    if k == 0 {
        Some(Stage::start(n))
    } else {
        match stage(m, perm, (k - 1) as nat) {
            None => None,
            Some(s) => s.next(column_upto(m, perm[k - 1] as int, n), n),
        }
    }
}

/// The factors in the order, where every column has a pivot.
pub open spec fn frozen<S: Scalar>(m: &SparseMatrix<S>, perm: Seq<usize>) -> Option<Stage<S>> {
    stage(m, perm, m.spec_dim())
}

/// A column without a pivot ends the factorization.
pub proof fn lemma_stage_ends<S: Scalar>(m: &SparseMatrix<S>, perm: Seq<usize>, k: nat, all: nat)
    requires
        stage(m, perm, k) is None,
        k <= all,
    ensures
        stage(m, perm, all) is None,
    decreases all,
{
    if k < all {
        lemma_stage_ends(m, perm, k, (all - 1) as nat);
    }
}

/// A column of L with its rows given by their steps.
pub open spec fn stepped<S>(col: Seq<(usize, S)>, pos: Seq<usize>) -> Seq<(usize, S)> {
    Seq::new(col.len(), |q: int| (pos[col[q].0 as int], col[q].1))
}

/// Where less-than is a strict order, no reached row that is not pivoted yet is
/// larger in magnitude than the one the scan settles on, and none is usable where it
/// settles on none.
pub proof fn law_the_largest_pivot_is_taken<S: Scalar>(
    x: Seq<S>,
    pos: Seq<usize>,
    reach: Seq<usize>,
    c: int,
)
    requires
        forall|a: S| !(#[trigger] a.spec_less(a)),
        forall|a: S, b: S, d: S|
            #![trigger a.spec_less(b), b.spec_less(d)]
            a.spec_less(b) && b.spec_less(d) ==> a.spec_less(d),
        0 <= c < reach.len(),
        pos[reach[c] as int] == usize::MAX,
    ensures
        ({
            let found = x[reach[c] as int].spec_abs();
            match pivot_scan(x, pos, reach, reach.len()).0 {
                Some(piv) => !x[piv as int].spec_abs().spec_less(found),
                None => !S::spec_zero().spec_less(found),
            }
        }),
{
    lemma_scan(x, pos, reach, reach.len(), c);
}

proof fn lemma_scan<S: Scalar>(x: Seq<S>, pos: Seq<usize>, reach: Seq<usize>, b: nat, c: int)
    requires
        forall|a: S| !(#[trigger] a.spec_less(a)),
        forall|a: S, b: S, d: S|
            #![trigger a.spec_less(b), b.spec_less(d)]
            a.spec_less(b) && b.spec_less(d) ==> a.spec_less(d),
        b <= reach.len(),
    ensures
        ({
            let (best, mag) = pivot_scan(x, pos, reach, b);
            &&& mag == match best {
                Some(piv) => x[piv as int].spec_abs(),
                None => S::spec_zero(),
            }
            &&& 0 <= c < b && pos[reach[c] as int] == usize::MAX
                ==> !mag.spec_less(x[reach[c] as int].spec_abs())
        }),
    decreases b,
{
    if b > 0 {
        lemma_scan(x, pos, reach, (b - 1) as nat, c);
    }
}

} // verus!
