//! The factorization with every pivot picked by the values at hand, as a function of
//! the matrix.
use vstd::prelude::*;

use crate::scalar::{tenth, Scalar};
use crate::sparse::dynamic::{merged_has, merged_value};
use crate::sparse::frozen::Stage;
use crate::sparse::matrix::{
    columns_below, increasing, lemma_row_pos, row_has, row_pos, row_value, SparseMatrix,
};

verus! {

/// The numbers below `n` that satisfy `has`, ascending.
pub open spec fn which(has: spec_fn(int) -> bool, n: nat) -> Seq<usize>
    decreases n,
{
    if n == 0 {
        Seq::empty()
    } else {
        let part = which(has, (n - 1) as nat);
        if has(n - 1) {
            part.push((n - 1) as usize)
        } else {
            part
        }
    }
}

/// The row that stores the columns below `n` that satisfy `has`, with their values.
pub open spec fn row_of<S>(
    has: spec_fn(int) -> bool,
    value: spec_fn(int) -> S,
    n: nat,
) -> Seq<(usize, S)>
    decreases n,
{
    if n == 0 {
        Seq::empty()
    } else {
        let part = row_of(has, value, (n - 1) as nat);
        if has(n - 1) {
            part.push(((n - 1) as usize, value(n - 1)))
        } else {
            part
        }
    }
}

/// A sorted row is fixed by the columns it stores and their values.
pub proof fn lemma_row_of<S: Scalar>(
    row: Seq<(usize, S)>,
    has: spec_fn(int) -> bool,
    value: spec_fn(int) -> S,
    n: nat,
)
    requires
        increasing(row),
        columns_below(row, n as int),
        n <= usize::MAX,
        forall|c: int| 0 <= c < n ==> #[trigger] row_has(row, c) == has(c),
        forall|c: int| 0 <= c < n && has(c) ==> #[trigger] row_value(row, c) == value(c),
    ensures
        row == row_of(has, value, n),
    decreases n,
{
    if n == 0 {
        if row.len() > 0 {
            assert(row[0].0 < 0);
        }
        assert(row =~= Seq::empty());
    } else {
        let top = n - 1;
        if row_has(row, top) {
            let k = row_pos(row, top);
            let last = row.len() - 1;
            assert(row[k].0 == top);
            assert(k == last) by {
                if k < last {
                    assert(row[k].0 < row[last].0);
                    assert(row[last].0 < n);
                }
            }
            let front = row.drop_last();
            assert forall|q: int| 0 <= q < front.len() implies (#[trigger] front[q]).0 < top by {
                assert(row[q].0 < row[last].0);
            }
            assert forall|a: int, b: int| 0 <= a < b < front.len() implies (#[trigger] front[a]).0
                < (#[trigger] front[b]).0 by {
                assert(row[a].0 < row[b].0);
            }
            assert forall|c: int| 0 <= c < top implies #[trigger] row_has(front, c) == has(c)
                && (has(c) ==> row_value(front, c) == value(c)) by {
                assert(row_has(row, c) == has(c));
                if row_has(row, c) {
                    let q = row_pos(row, c);
                    assert(row[q].0 == c);
                    assert(front[q].0 == c);
                    lemma_row_pos(row, q);
                    lemma_row_pos(front, q);
                    assert(row_value(row, c) == value(c));
                }
                if row_has(front, c) {
                    let q = row_pos(front, c);
                    assert(row[q].0 == c);
                }
            }
            assert forall|c: int| 0 <= c < top && has(c) implies #[trigger] row_value(front, c)
                == value(c) by {
                assert(row_has(front, c) == has(c));
            }
            lemma_row_of(front, has, value, top as nat);
            lemma_row_pos(row, last);
            assert(row_value(row, top) == value(top));
            assert(row =~= front.push(row[last]));
        } else {
            assert forall|q: int| 0 <= q < row.len() implies (#[trigger] row[q]).0 < top by {
                if row[q].0 == top {
                    assert(row_has(row, top));
                }
            }
            lemma_row_of(row, has, value, top as nat);
        }
    }
}

/// The first flag from `from` on that is not set.
pub open spec fn first_unset(gone: Seq<bool>, from: int) -> int
    decreases gone.len() - from,
{
    if 0 <= from < gone.len() && gone[from] {
        first_unset(gone, from + 1)
    } else {
        from
    }
}

pub proof fn lemma_first_unset(gone: Seq<bool>, from: int, at: int)
    requires
        0 <= from <= at < gone.len(),
        !gone[at],
        forall|i: int| from <= i < at ==> #[trigger] gone[i],
    ensures
        first_unset(gone, from) == at,
    decreases at - from,
{
    if from < at {
        lemma_first_unset(gone, from + 1, at);
    }
}

/// What is left of the matrix: the rows still to be eliminated, for each column the
/// rows that were ever put in it, and what is eliminated.
pub struct Remaining<S> {
    pub row: Seq<Seq<(usize, S)>>,
    pub col: Seq<Seq<usize>>,
    pub row_gone: Seq<bool>,
    pub col_gone: Seq<bool>,
}

/// The matrix stores a number other than zero at `(i, j)`.
pub open spec fn nonzero<S: Scalar>(m: &SparseMatrix<S>, i: int, j: int) -> bool {
    m.has(i, j) && !m.value(i, j).spec_is_zero()
}

/// The columns that row `i` of the matrix is nonzero in.
pub open spec fn nonzero_in_row<S: Scalar>(m: &SparseMatrix<S>, i: int) -> spec_fn(int) -> bool {
    |j: int| nonzero(m, i, j)
}

/// The rows that column `j` of the matrix is nonzero in.
pub open spec fn nonzero_in_column<S: Scalar>(
    m: &SparseMatrix<S>,
    j: int,
) -> spec_fn(int) -> bool {
    |i: int| nonzero(m, i, j)
}

impl<S: Scalar> Remaining<S> {
    /// All of the matrix: its nonzero values.
    pub open spec fn start(m: &SparseMatrix<S>) -> Self {
        let n = m.spec_dim();
        Remaining {
            row: Seq::new(n, |i: int| row_of(nonzero_in_row(m, i), |j: int| m.value(i, j), n)),
            col: Seq::new(n, |j: int| which(nonzero_in_column(m, j), n)),
            row_gone: Seq::new(n, |i: int| false),
            col_gone: Seq::new(n, |j: int| false),
        }
    }

    /// Column `c` may still be pivoted on.
    pub open spec fn open_column(self, c: int) -> bool {
        &&& 0 <= c < self.col_gone.len()
        &&& !self.col_gone[c]
        &&& self.col[c].len() > 0
    }

    /// The largest live magnitude among the first `k` listed rows of column `c`.
    pub open spec fn peak(self, c: int, k: nat) -> S
        decreases k,
    {
        if k == 0 {
            S::spec_zero()
        } else {
            let p = self.peak(c, (k - 1) as nat);
            let i = self.col[c][k - 1] as int;
            if !self.row_gone[i] && row_has(self.row[i], c) && p.spec_less(
                row_value(self.row[i], c).spec_abs(),
            ) {
                row_value(self.row[i], c).spec_abs()
            } else {
                p
            }
        }
    }

    /// The rows that the pivot is eliminated from: those still live that hold its
    /// column.
    pub open spec fn below(self, pr: usize, pc: usize) -> spec_fn(int) -> bool {
        |i: int| i != pr && !self.row_gone[i] && row_has(self.row[i], pc as int)
    }

    /// How many times the pivot row is taken off row `i`.
    pub open spec fn factor(self, pr: usize, pc: usize, i: int) -> S {
        row_value(self.row[i], pc as int).spec_over(row_value(self.row[pr as int], pc as int))
    }

    /// The columns of the pivot row that are still live, but for its own.
    pub open spec fn beside(self, pr: usize, pc: usize) -> spec_fn(int) -> bool {
        |j: int| row_has(self.row[pr as int], j) && j != pc && !self.col_gone[j]
    }

    /// The column of L that the pivot leaves behind.
    pub open spec fn lower(self, pr: usize, pc: usize, n: nat) -> Seq<(usize, S)> {
        row_of(self.below(pr, pc), |i: int| self.factor(pr, pc, i), n)
    }

    /// The row of U that the pivot leaves behind.
    pub open spec fn upper(self, pr: usize, pc: usize, n: nat) -> Seq<(usize, S)> {
        row_of(self.beside(pr, pc), |j: int| row_value(self.row[pr as int], j), n)
    }

    /// Row `i` with the pivot eliminated from it.
    pub open spec fn merged(self, pr: usize, pc: usize, n: nat, i: int) -> Seq<(usize, S)> {
        let piv = self.upper(pr, pc, n);
        let f = self.factor(pr, pc, i);
        row_of(
            |j: int| merged_has(self.row[i], piv, pc, f, j),
            |j: int| merged_value(self.row[i], piv, f, j),
            n,
        )
    }

    /// The rows that elimination puts a new entry into column `j` of.
    pub open spec fn filled(self, pr: usize, pc: usize, n: nat, j: int) -> spec_fn(int) -> bool {
        |i: int|
            self.below(pr, pc)(i) && row_has(self.upper(pr, pc, n), j) && !row_has(self.row[i], j)
    }

    /// What is left once the pivot `(pr, pc)` is eliminated from every other live row.
    pub open spec fn eliminated(self, pr: usize, pc: usize, n: nat) -> Self {
        Remaining {
            row: Seq::new(
                n,
                |i: int|
                    if self.below(pr, pc)(i) {
                        self.merged(pr, pc, n, i)
                    } else {
                        self.row[i]
                    },
            ),
            col: Seq::new(n, |j: int| self.col[j] + which(self.filled(pr, pc, n, j), n)),
            row_gone: self.row_gone.update(pr as int, true),
            col_gone: self.col_gone.update(pc as int, true),
        }
    }

    /// What is left once row `pr` and column `pc` are set aside.
    pub open spec fn without(self, pr: usize, pc: usize) -> Self {
        Remaining {
            row_gone: self.row_gone.update(pr as int, true),
            col_gone: self.col_gone.update(pc as int, true),
            ..self
        }
    }
}

/// The fill a pivot can cause, capped at the largest `usize`.
pub open spec fn markowitz(row_len: nat, col_len: nat) -> nat {
    let a: int = if row_len > 0 { row_len - 1 } else { 0 };
    let b: int = if col_len > 0 { col_len - 1 } else { 0 };
    if a * b > usize::MAX {
        usize::MAX as nat
    } else {
        (a * b) as nat
    }
}

/// The best pivot so far: position, fill count and magnitude.
pub struct Pick<S> {
    pub best: Option<(usize, usize)>,
    pub mark: usize,
    pub mag: S,
}

/// Nothing picked yet.
pub open spec fn no_pick<S: Scalar>() -> Pick<S> {
    Pick { best: None, mark: usize::MAX, mag: S::spec_zero() }
}

/// The pick after row `i` of column `c`: a live entry that is not below a tenth
/// of the column's peak wins by a lower fill count, or an equal one and a larger
/// magnitude.
pub open spec fn considered<S: Scalar>(
    a: Remaining<S>,
    pick: Pick<S>,
    c: usize,
    peak: S,
    i: usize,
) -> Pick<S> {
    let v = row_value(a.row[i as int], c as int);
    let mark = markowitz(a.row[i as int].len(), a.col[c as int].len()) as usize;
    if a.row_gone[i as int] || !row_has(a.row[i as int], c as int) || v.spec_abs().spec_less(
        tenth::<S>().spec_times(peak),
    ) {
        pick
    } else if mark < pick.mark || (mark == pick.mark && pick.mag.spec_less(v.spec_abs())) {
        Pick { best: Some((i, c)), mark, mag: v.spec_abs() }
    } else {
        pick
    }
}

/// The pick after the first `k` listed rows of column `c`.
pub open spec fn considered_rows<S: Scalar>(
    a: Remaining<S>,
    pick: Pick<S>,
    c: usize,
    peak: S,
    k: nat,
) -> Pick<S>
    decreases k,
{
    if k == 0 {
        pick
    } else {
        considered(
            a,
            considered_rows(a, pick, c, peak, (k - 1) as nat),
            c,
            peak,
            a.col[c as int][k - 1],
        )
    }
}

/// The pick after the first `k` of the columns `cols`; a pivot that causes no
/// fill ends the search.
pub open spec fn scanned<S: Scalar>(a: Remaining<S>, cols: Seq<usize>, k: nat) -> Pick<S>
    decreases k,
{
    if k == 0 {
        no_pick()
    } else {
        let p = scanned(a, cols, (k - 1) as nat);
        let c = cols[k - 1];
        let m = a.col[c as int].len();
        let peak = a.peak(c as int, m);
        if p.mark == 0 || peak.spec_is_zero() {
            p
        } else {
            considered_rows(a, p, c, peak, m)
        }
    }
}

/// `c` comes before `d` in the search: fewer listed rows, then lower index.
pub open spec fn sooner<S: Scalar>(a: Remaining<S>, c: usize, d: usize) -> bool {
    let (x, y) = (a.col[c as int].len(), a.col[d as int].len());
    x < y || (x == y && c < d)
}

/// The columns that may be pivoted on, in search order.
pub open spec fn search_order<S: Scalar>(a: Remaining<S>, cols: Seq<usize>) -> bool {
    &&& forall|j: int, k: int| 0 <= j < k < cols.len() ==> sooner(a, #[trigger] cols[j], #[trigger] cols[k])
    &&& forall|k: int| 0 <= k < cols.len() ==> a.open_column((#[trigger] cols[k]) as int)
    &&& forall|c: usize| a.open_column(c as int) ==> cols.contains(c)
}

/// Where a column of the given length goes among the first `k`: behind the last that is
/// not longer.
pub open spec fn place<S: Scalar>(
    a: Remaining<S>,
    cols: Seq<usize>,
    len: nat,
    k: nat,
) -> nat
    decreases k,
{
    if k > 0 && a.col[cols[k - 1] as int].len() > len {
        place(a, cols, len, (k - 1) as nat)
    } else {
        k
    }
}

/// The columns below `c` that may be pivoted on, shortest first, equally long ones by
/// index.
pub open spec fn candidates<S: Scalar>(a: Remaining<S>, c: nat) -> Seq<usize>
    decreases c,
{
    if c == 0 {
        Seq::empty()
    } else {
        let part = candidates(a, (c - 1) as nat);
        if a.open_column(c - 1) {
            part.insert(place(a, part, a.col[c - 1].len(), part.len()) as int, (c - 1) as usize)
        } else {
            part
        }
    }
}

pub proof fn lemma_place<S: Scalar>(
    a: Remaining<S>,
    cols: Seq<usize>,
    len: nat,
    k: nat,
    at: nat,
)
    requires
        at <= k <= cols.len(),
        forall|q: int| 0 <= q < at ==> a.col[(#[trigger] cols[q]) as int].len() <= len,
        forall|q: int| at <= q < k ==> a.col[(#[trigger] cols[q]) as int].len() > len,
    ensures
        place(a, cols, len, k) == at,
    decreases k,
{
    if k > at {
        assert(a.col[cols[k - 1] as int].len() > len);
        lemma_place(a, cols, len, (k - 1) as nat, at);
    } else if k > 0 {
        assert(a.col[cols[k - 1] as int].len() <= len);
    }
}

/// The pivot to eliminate next, if any live entry is usable: among the entries that are
/// not below a tenth of their column's peak, the first of the lowest fill count and,
/// among those, of the largest magnitude.
pub open spec fn best_pivot<S: Scalar>(a: Remaining<S>, n: nat) -> Option<(usize, usize)> {
    let cols = candidates(a, n);
    scanned(a, cols, cols.len()).best
}

/// The factorization under way: what is left, and what the steps left behind. L is by
/// step and original row, U by step and original column.
pub struct Trail<S> {
    pub rest: Remaining<S>,
    pub pos: Seq<usize>,
    pub pivot_row: Seq<usize>,
    pub perm: Seq<usize>,
    pub diag: Seq<S>,
    pub l: Seq<Seq<(usize, S)>>,
    pub urow: Seq<Seq<(usize, S)>>,
}

impl<S: Scalar> Trail<S> {
    /// Before any step.
    pub open spec fn start(m: &SparseMatrix<S>) -> Self {
        Trail {
            rest: Remaining::start(m),
            pos: Seq::new(m.spec_dim(), |i: int| usize::MAX),
            pivot_row: Seq::empty(),
            perm: Seq::empty(),
            diag: Seq::empty(),
            l: Seq::empty(),
            urow: Seq::empty(),
        }
    }

    /// One more pivot, with what it left behind.
    pub open spec fn recorded(
        self,
        rest: Remaining<S>,
        pr: usize,
        pc: usize,
        pivot: S,
        lcol: Seq<(usize, S)>,
        urow: Seq<(usize, S)>,
    ) -> Self {
        Trail {
            rest,
            pos: self.pos.update(pr as int, self.perm.len() as usize),
            pivot_row: self.pivot_row.push(pr),
            perm: self.perm.push(pc),
            diag: self.diag.push(pivot),
            l: self.l.push(lcol),
            urow: self.urow.push(urow),
        }
    }

    /// One step: eliminate the best pivot; where there is none, anchor the first row
    /// and the first column that are still live with a unit pivot.
    pub open spec fn next(self, n: nat) -> Self {
        match best_pivot(self.rest, n) {
            Some((pr, pc)) => self.recorded(
                self.rest.eliminated(pr, pc, n),
                pr,
                pc,
                row_value(self.rest.row[pr as int], pc as int),
                self.rest.lower(pr, pc, n),
                self.rest.upper(pr, pc, n),
            ),
            None => {
                let pr = first_unset(self.rest.row_gone, 0) as usize;
                let pc = first_unset(self.rest.col_gone, 0) as usize;
                self.recorded(
                    self.rest.without(pr, pc),
                    pr,
                    pc,
                    S::spec_int(1),
                    Seq::empty(),
                    Seq::empty(),
                )
            },
        }
    }

    /// Column `t` of U by steps: what the row of each earlier step holds at the column
    /// eliminated at step `t`.
    pub open spec fn upper_column(self, t: int, s: nat) -> Seq<(usize, S)> {
        let c = self.perm[t] as int;
        row_of(|r: int| row_has(self.urow[r], c), |r: int| row_value(self.urow[r], c), s)
    }

    /// The factors, once every step is taken.
    pub open spec fn stage(self) -> Stage<S> {
        Stage {
            pos: self.pos,
            pivot_row: self.pivot_row,
            diag: self.diag,
            l: self.l,
            u: Seq::new(self.perm.len(), |t: int| self.upper_column(t, t as nat)),
        }
    }
}

/// The factorization of the matrix after `k` steps.
pub open spec fn trail<S: Scalar>(m: &SparseMatrix<S>, k: nat) -> Trail<S>
    decreases k,
{
    if k == 0 {
        Trail::start(m)
    } else {
        trail(m, (k - 1) as nat).next(m.spec_dim())
    }
}

/// The factorization of the matrix: a step for every unknown.
pub open spec fn dynamic<S: Scalar>(m: &SparseMatrix<S>) -> Trail<S> {
    trail(m, m.spec_dim())
}

/// The fill that pivoting on `(i, c)` can cause.
pub open spec fn fill_of<S: Scalar>(a: Remaining<S>, i: usize, c: usize) -> nat {
    markowitz(a.row[i as int].len(), a.col[c as int].len())
}

/// Whether `(i, c)` may be pivoted on: it is live, and not below a tenth of its column's
/// peak, which is not zero.
pub open spec fn stable<S: Scalar>(a: Remaining<S>, i: usize, c: usize) -> bool {
    let peak = a.peak(c as int, a.col[c as int].len());
    &&& a.open_column(c as int)
    &&& !a.row_gone[i as int]
    &&& row_has(a.row[i as int], c as int)
    &&& !peak.spec_is_zero()
    &&& !row_value(a.row[i as int], c as int).spec_abs().spec_less(
        tenth::<S>().spec_times(peak),
    )
}

/// Whether a pick, if any, is a stable entry with its fill count.
pub open spec fn picked<S: Scalar>(a: Remaining<S>, pick: Pick<S>) -> bool {
    pick.best matches Some((i, c)) ==> stable(a, i, c) && pick.mark == fill_of(a, i, c)
        && a.col[c as int].contains(i)
}

proof fn lemma_considered_rows<S: Scalar>(
    a: Remaining<S>,
    pick: Pick<S>,
    c: usize,
    k: nat,
    q: int,
)
    requires
        picked(a, pick),
        a.open_column(c as int),
        k <= a.col[c as int].len(),
        !a.peak(c as int, a.col[c as int].len()).spec_is_zero(),
    ensures
        ({
            let peak = a.peak(c as int, a.col[c as int].len());
            let after = considered_rows(a, pick, c, peak, k);
            &&& picked(a, after)
            &&& after.mark <= pick.mark
            &&& 0 <= q < k && stable(a, a.col[c as int][q], c) ==> after.mark <= fill_of(
                a,
                a.col[c as int][q],
                c,
            )
        }),
    decreases k,
{
    if k > 0 {
        lemma_considered_rows(a, pick, c, (k - 1) as nat, q);
        assert(a.col[c as int].contains(a.col[c as int][k - 1]));
    }
}

proof fn lemma_scanned<S: Scalar>(
    a: Remaining<S>,
    cols: Seq<usize>,
    k: nat,
    at: int,
    q: int,
)
    requires
        k <= cols.len(),
        forall|j: int| 0 <= j < cols.len() ==> a.open_column((#[trigger] cols[j]) as int),
    ensures
        picked(a, scanned(a, cols, k)),
        0 <= at < k && 0 <= q < a.col[cols[at] as int].len() && stable(
            a,
            a.col[cols[at] as int][q],
            cols[at],
        ) ==> scanned(a, cols, k).mark <= fill_of(a, a.col[cols[at] as int][q], cols[at]),
    decreases k,
{
    if k > 0 {
        lemma_scanned(a, cols, (k - 1) as nat, at, q);
        let p = scanned(a, cols, (k - 1) as nat);
        let c = cols[k - 1];
        let m = a.col[c as int].len();
        assert(a.open_column(c as int));
        if p.mark != 0 && !a.peak(c as int, m).spec_is_zero() {
            lemma_considered_rows(a, p, c, m, q);
        }
    }
}

proof fn lemma_candidates<S: Scalar>(a: Remaining<S>, n: nat)
    requires
        n <= usize::MAX,
    ensures
        forall|k: int|
            0 <= k < candidates(a, n).len() ==> a.open_column(
                (#[trigger] candidates(a, n)[k]) as int,
            ),
        forall|d: usize| d < n && a.open_column(d as int) ==> candidates(a, n).contains(d),
    decreases n,
{
    if n > 0 {
        lemma_candidates(a, (n - 1) as nat);
        let part = candidates(a, (n - 1) as nat);
        let all = candidates(a, n);
        let c = (n - 1) as usize;
        if a.open_column(n - 1) {
            let len = a.col[n - 1].len();
            lemma_place_range(a, part, len, part.len());
            let at = place(a, part, len, part.len()) as int;
            assert(all =~= part.insert(at, c));
            assert forall|k: int| 0 <= k < all.len() implies a.open_column(
                (#[trigger] all[k]) as int,
            ) by {
                if k < at {
                    assert(all[k] == part[k]);
                } else if k > at {
                    assert(all[k] == part[k - 1]);
                }
            }
            assert forall|d: usize| d < n && a.open_column(d as int) implies all.contains(d) by {
                if d == c {
                    assert(all[at] == d);
                } else {
                    assert(part.contains(d));
                    let k = choose|k: int| 0 <= k < part.len() && part[k] == d;
                    assert(all[if k < at {
                        k
                    } else {
                        k + 1
                    }] == d);
                }
            }
        }
    }
}

proof fn lemma_place_range<S: Scalar>(a: Remaining<S>, cols: Seq<usize>, len: nat, k: nat)
    ensures
        place(a, cols, len, k) <= k,
    decreases k,
{
    if k > 0 {
        lemma_place_range(a, cols, len, (k - 1) as nat);
    }
}

/// A pivot is never small: whatever the scalar, the pivot that is picked is a live entry
/// that is not below a tenth of the largest magnitude in its column.
pub proof fn law_pivots_pass_the_threshold<S: Scalar>(a: Remaining<S>, n: nat)
    requires
        n <= usize::MAX,
        best_pivot(a, n) is Some,
    ensures
        stable(a, (best_pivot(a, n)->0).0, (best_pivot(a, n)->0).1),
{
    let cols = candidates(a, n);
    lemma_candidates(a, n);
    lemma_scanned(a, cols, cols.len(), 0, 0);
}

/// A pivot fills least: whatever the scalar, no entry that may be pivoted on has a lower
/// fill count than the pivot that is picked.
pub proof fn law_pivots_fill_least<S: Scalar>(a: Remaining<S>, n: nat, i: usize, c: usize)
    requires
        n <= usize::MAX,
        best_pivot(a, n) is Some,
        c < n,
        a.col[c as int].contains(i),
        stable(a, i, c),
    ensures
        fill_of(a, (best_pivot(a, n)->0).0, (best_pivot(a, n)->0).1) <= fill_of(a, i, c),
{
    let cols = candidates(a, n);
    lemma_candidates(a, n);
    assert(cols.contains(c));
    let at = choose|k: int| 0 <= k < cols.len() && cols[k] == c;
    let q = choose|q: int| 0 <= q < a.col[c as int].len() && a.col[c as int][q] == i;
    lemma_scanned(a, cols, cols.len(), at, q);
}

} // verus!
