//! Left-looking elimination, one column at a time.
use vstd::prelude::*;

use crate::scalar::Scalar;
use crate::sparse::algebra::{lemma_sum_bump, lemma_sum_ext, lemma_sum_zero, sum};
use crate::sparse::column::{
    distinct, eliminate, eliminated, lemma_distinct_pos, lemma_distinct_push,
};
use crate::sparse::frozen::{pivot_scan, spread, Stage};
use crate::sparse::matrix::{
    columns_below, increasing, lemma_row_pos, row_has, row_pos, row_value, SparseMatrix,
};
use crate::sparse::reach::{dfs_reach, feeds, forward_only, pivot_index, reach_ok, reached};
use crate::sparse::triangular::columns;

verus! {

/// The factors after some steps. L is stored by step and original row, U by step
/// and earlier step; `pos` is the step of each row, `usize::MAX` for a row not
/// pivoted yet.
pub struct Partial<S> {
    pub pos: Vec<usize>,
    pub pivot_row: Vec<usize>,
    pub diag: Vec<S>,
    pub l: Vec<Vec<(usize, S)>>,
    pub u: Vec<Vec<(usize, S)>>,
}

impl<S: Scalar> Partial<S> {
    /// The number of steps taken.
    pub open spec fn steps(&self) -> nat {
        self.pivot_row@.len()
    }

    /// The factors as sequences.
    pub open spec fn stage(&self) -> Stage<S> {
        Stage {
            pos: self.pos@,
            pivot_row: self.pivot_row@,
            diag: self.diag@,
            l: columns(self.l@),
            u: columns(self.u@),
        }
    }

    /// Structure of the factors of an `n x n` matrix.
    pub open spec fn wf(&self, n: nat) -> bool {
        let k = self.steps();
        &&& k <= n
        &&& self.pos@.len() == n
        &&& self.diag@.len() == k
        &&& self.l@.len() == k
        &&& self.u@.len() == k
        &&& forall|s: int|
            0 <= s < k ==> (#[trigger] self.pivot_row@[s]) < n
                && self.pos@[self.pivot_row@[s] as int] == s
        &&& forall|i: int|
            0 <= i < n && #[trigger] self.pos@[i] != usize::MAX ==> self.pos@[i] < k
                && self.pivot_row@[self.pos@[i] as int] == i
        &&& forward_only(self.l@, self.pos@)
        &&& forall|s: int| 0 <= s < k ==> distinct(#[trigger] self.l@[s]@)
        &&& forall|t: int|
            0 <= t < k ==> distinct(#[trigger] self.u@[t]@) && columns_below(self.u@[t]@, t)
        &&& S::exact() ==> forall|s: int| 0 <= s < k ==> #[trigger] self.diag@[s] != S::spec_zero()
    }

    /// L at original row `i` and step `s`, with its unit diagonal.
    pub open spec fn lower(&self, i: int, s: int) -> S {
        if self.pivot_row@[s] == i {
            S::spec_int(1)
        } else {
            row_value(self.l@[s]@, i)
        }
    }

    /// U at steps `s <= t`.
    pub open spec fn upper(&self, s: int, t: int) -> S {
        if s == t {
            self.diag@[t]
        } else {
            row_value(self.u@[t]@, s)
        }
    }

    /// The products `L(i, s) * U(s, t)`.
    pub open spec fn terms(&self, i: int, t: int) -> spec_fn(int) -> S {
        |s: int| self.lower(i, s).spec_times(self.upper(s, t))
    }

    /// The eliminated columns of `m` are the product of the factors.
    pub open spec fn reproduces(&self, m: &SparseMatrix<S>, perm: Seq<usize>) -> bool {
        forall|i: int, t: int|
            0 <= i < m.spec_dim() && 0 <= t < self.steps() ==> #[trigger] m.value(
                i,
                perm[t] as int,
            ) == sum((t + 1) as nat, self.terms(i, t))
    }
}

/// Every row off the reach holds zero.
pub open spec fn zero_off<S: Scalar>(x: Seq<S>, marked: Seq<bool>) -> bool {
    &&& x.len() == marked.len()
    &&& forall|i: int| 0 <= i < x.len() && !#[trigger] marked[i] ==> x[i] == S::spec_zero()
}

/// Scatter a column into `x` and collect the rows its elimination reaches.
fn gather<S: Scalar>(
    p: &Partial<S>,
    col: &Vec<(usize, S)>,
    x: &mut Vec<S>,
    marked: &mut Vec<bool>,
    reach: &mut Vec<usize>,
)
    requires
        p.wf(old(x)@.len()),
        increasing(col@),
        columns_below(col@, old(x)@.len() as int),
        old(marked)@.len() == old(x)@.len(),
        old(reach)@.len() == 0,
        forall|i: int| 0 <= i < old(x)@.len() ==> !#[trigger] old(marked)@[i],
        forall|i: int| 0 <= i < old(x)@.len() ==> #[trigger] old(x)@[i] == S::spec_zero(),
    ensures
        reach_ok(p.l@, p.pos@, final(marked)@, final(reach)@),
        zero_off(final(x)@, final(marked)@),
        final(x)@.len() == old(x)@.len(),
        forall|i: int|
            0 <= i < final(x)@.len() ==> #[trigger] final(x)@[i] == row_value(col@, i),
        final(x)@ == spread(col@, old(x)@.len()),
        (final(marked)@, final(reach)@) == reached(
            columns(p.l@),
            p.pos@,
            col@,
            old(x)@.len(),
            col@.len(),
        ),
{
    let ghost n = x@.len();
    let mut q: usize = 0;
    assert(marked@ =~= Seq::new(n, |i: int| false));
    assert(reach@ =~= Seq::empty());
    assert(reach_ok(p.l@, p.pos@, marked@, reach@));
    while q < col.len()
        invariant
            q <= col@.len(),
            p.wf(n),
            x@.len() == n,
            increasing(col@),
            columns_below(col@, n as int),
            reach_ok(p.l@, p.pos@, marked@, reach@),
            (marked@, reach@) == reached(columns(p.l@), p.pos@, col@, n, q as nat),
            forall|i: int|
                0 <= i < n ==> #[trigger] x@[i] == (if row_has(col@.take(q as int), i) {
                    row_value(col@, i)
                } else {
                    S::spec_zero()
                }),
            forall|b: int| 0 <= b < q ==> reach@.contains((#[trigger] col@[b]).0),
        decreases col@.len() - q,
    {
        let (i, v): (usize, S) = col[q];
        proof {
            lemma_row_pos(col@, q as int);
        }
        let ghost x1 = x@;
        x.set(i, v);
        let ghost reach1 = reach@;
        if !marked[i] {
            dfs_reach(i, &p.pos, &p.l, marked, reach);
        }
        proof {
            let t0 = col@.take(q as int);
            let t1 = col@.take(q + 1);
            assert forall|r: int| 0 <= r < n implies #[trigger] x@[r] == (if row_has(t1, r) {
                row_value(col@, r)
            } else {
                S::spec_zero()
            }) by {
                if r == i {
                    assert(t1[q as int].0 == r);
                } else {
                    assert(x@[r] == x1[r]);
                    if row_has(t1, r) {
                        let b = row_pos(t1, r);
                        assert(t1[b].0 == r);
                        assert(t0[b].0 == r);
                    }
                    if row_has(t0, r) {
                        let b = row_pos(t0, r);
                        assert(t1[b].0 == r);
                    }
                }
            }
            assert forall|b: int| 0 <= b < q + 1 implies reach@.contains((#[trigger] col@[b]).0) by {
                if b < q {
                    let a = choose|a: int| 0 <= a < reach1.len() && reach1[a] == col@[b].0;
                    assert(reach@[a] == col@[b].0);
                }
            }
        }
        q = q + 1;
    }
    proof {
        assert(col@.take(col@.len() as int) =~= col@);
        assert forall|i: int| 0 <= i < n implies #[trigger] x@[i] == row_value(col@, i) by {}
        assert(x@ =~= spread(col@, n));
        assert forall|i: int| 0 <= i < n && !#[trigger] marked@[i] implies x@[i]
            == S::spec_zero() by {
            if row_has(col@, i) {
                let b = row_pos(col@, i);
                assert(reach@.contains(col@[b].0));
                assert(marked@[i]);
            }
        }
    }
}

/// The row of step `s` has been eliminated once the scan is down to `from`.
spec fn done<S: Scalar>(p: &Partial<S>, reach: Seq<usize>, from: int, s: int) -> bool {
    exists|q: int| from <= q < reach.len() && #[trigger] reach[q] == p.pivot_row@[s]
}

/// What the steps eliminated so far have taken off row `i`.
spec fn taken<S: Scalar>(p: &Partial<S>, reach: Seq<usize>, x: Seq<S>, from: int, i: int) -> spec_fn(
    int,
) -> S {
    |s: int|
        if done(p, reach, from, s) {
            row_value(p.l@[s]@, i).spec_times(x[p.pivot_row@[s] as int])
        } else {
            S::spec_zero()
        }
}

/// What all steps take off row `i`.
pub open spec fn drawn<S: Scalar>(p: &Partial<S>, x: Seq<S>, i: int) -> spec_fn(int) -> S {
    |s: int| row_value(p.l@[s]@, i).spec_times(x[p.pivot_row@[s] as int])
}

proof fn lemma_eliminate_one<S: Scalar>(
    p: &Partial<S>,
    n: nat,
    reach: Seq<usize>,
    marked: Seq<bool>,
    x: Seq<S>,
    y: Seq<S>,
    from: int,
    s: int,
    start: S,
    i: int,
)
    requires
        S::exact(),
        p.wf(n),
        reach_ok(p.l@, p.pos@, marked, reach),
        x.len() == n,
        0 <= from < reach.len(),
        0 <= s < p.steps(),
        reach[from] == p.pivot_row@[s],
        y == eliminated(x, p.l@[s]@, x[reach[from] as int]) || (y == x && x[reach[from] as int]
            == S::spec_zero()),
        0 <= i < n,
        start == x[i].spec_plus(sum(p.steps(), taken(p, reach, x, from + 1, i))),
    ensures
        start == y[i].spec_plus(sum(p.steps(), taken(p, reach, y, from, i))),
{
    let r = reach[from] as int;
    let f = taken(p, reach, x, from + 1, i);
    let g = taken(p, reach, y, from, i);
    let col = p.l@[s]@;
    let d = row_value(col, i).spec_times(x[r]);
    assert(p.pos@[r] == s);
    // Neither the row itself nor a row eliminated before it is touched.
    assert(y[r] == x[r]) by {
        if row_has(col, r) {
            let q = row_pos(col, r);
            assert(p.l@[s]@[q].0 == r);
        }
    }
    assert forall|s2: int| 0 <= s2 < p.steps() && s2 != s implies #[trigger] f(s2) == g(s2) by {
        let r2 = p.pivot_row@[s2] as int;
        assert(p.pos@[r2] == s2);
        assert(done(p, reach, from, s2) == done(p, reach, from + 1, s2)) by {
            if done(p, reach, from, s2) {
                let q = choose|q: int| from <= q < reach.len() && #[trigger] reach[q] == r2;
                assert(q != from);
                assert(from + 1 <= q < reach.len() && reach[q] == p.pivot_row@[s2]);
            }
            if done(p, reach, from + 1, s2) {
                let q = choose|q: int| from + 1 <= q < reach.len() && #[trigger] reach[q] == r2;
                assert(from <= q < reach.len() && reach[q] == p.pivot_row@[s2]);
            }
        }
        if done(p, reach, from + 1, s2) {
            let q = choose|q: int| from + 1 <= q < reach.len() && #[trigger] reach[q] == r2;
            assert(y[r2] == x[r2]) by {
                if row_has(col, r2) {
                    assert(feeds(p.l@, p.pos@, reach[from] as int, r2));
                    let a = choose|a: int| 0 <= a < from && #[trigger] reach[a] == r2;
                    assert(reach[a] != reach[q]);
                }
            }
        }
    }
    assert(!done(p, reach, from + 1, s)) by {
        if done(p, reach, from + 1, s) {
            let q = choose|q: int| from + 1 <= q < reach.len() && #[trigger] reach[q] == p.pivot_row@[s];
            assert(reach[from] != reach[q]);
        }
    }
    assert(done(p, reach, from, s));
    assert(g(s) == d);
    S::laws(S::spec_zero(), d, d);
    S::laws(d, S::spec_zero(), d);
    lemma_sum_bump(p.steps(), f, g, s, d);
    S::laws(row_value(col, i), x[r], d);
    // x[i] == y[i] + d
    assert(x[i] == y[i].spec_plus(d)) by {
        S::laws(x[i], d, d);
        if y == x && x[r] == S::spec_zero() {
            S::laws(row_value(col, i), S::spec_zero(), d);
            assert(d == S::spec_zero());
        } else if !row_has(col, i) {
            S::laws(x[r], S::spec_zero(), d);
            assert(d == S::spec_zero()) by {
                S::laws(S::spec_zero(), x[r], d);
            }
            assert(y[i] == x[i]);
        } else {
            assert(y[i] == x[i].spec_minus(d));
        }
    }
    let t = sum(p.steps(), f);
    S::laws(y[i], d, t);
    S::laws(d, t, t);
    S::laws(t, d, t);
}

/// Apply every reached pivot row, in elimination order.
fn eliminate_reached<S: Scalar>(
    p: &Partial<S>,
    x: &mut Vec<S>,
    marked: &Vec<bool>,
    reach: &Vec<usize>,
)
    requires
        p.wf(old(x)@.len()),
        reach_ok(p.l@, p.pos@, marked@, reach@),
        zero_off(old(x)@, marked@),
    ensures
        final(x)@.len() == old(x)@.len(),
        zero_off(final(x)@, marked@),
        final(x)@ == p.stage().reduced(old(x)@, reach@, 0),
        S::exact() ==> forall|i: int|
            0 <= i < final(x)@.len() ==> #[trigger] old(x)@[i] == final(x)@[i].spec_plus(
                sum(p.steps(), drawn(p, final(x)@, i)),
            ),
{
    let ghost n = x@.len();
    let ghost start = x@;
    let k: usize = p.pivot_row.len();
    let mut idx: usize = reach.len();
    proof {
        if S::exact() {
            assert forall|i: int| 0 <= i < n implies #[trigger] start[i] == x@[i].spec_plus(
                sum(p.steps(), taken(p, reach@, x@, idx as int, i)),
            ) by {
                let f = taken(p, reach@, x@, idx as int, i);
                assert forall|s: int| 0 <= s < p.steps() implies #[trigger] f(s)
                    == S::spec_zero() by {
                    assert(!done(p, reach@, idx as int, s));
                }
                lemma_sum_zero(p.steps(), f);
                S::laws(start[i], start[i], start[i]);
            }
        }
    }
    while idx > 0
        invariant
            idx <= reach@.len(),
            p.wf(n),
            k == p.steps(),
            x@.len() == n,
            start.len() == n,
            reach_ok(p.l@, p.pos@, marked@, reach@),
            zero_off(x@, marked@),
            x@ == p.stage().reduced(start, reach@, idx as int),
            S::exact() ==> forall|i: int|
                0 <= i < n ==> #[trigger] start[i] == x@[i].spec_plus(
                    sum(p.steps(), taken(p, reach@, x@, idx as int, i)),
                ),
        decreases idx,
    {
        idx = idx - 1;
        let r: usize = reach[idx];
        let ghost x1 = x@;
        match pivot_index(r, &p.pos) {
            Some(step) => {
                let xr: S = x[r];
                proof {
                    assert(columns_below(p.l@[step as int]@, n as int)) by {
                        assert forall|q: int| 0 <= q < p.l@[step as int]@.len() implies (
                        #[trigger] p.l@[step as int]@[q]).0 < n by {}
                    }
                }
                if !xr.is_zero() {
                    eliminate(x, &p.l[step], xr);
                }
                proof {
                    assert(zero_off(x@, marked@)) by {
                        assert forall|i: int| 0 <= i < n && !#[trigger] marked@[i] implies x@[i]
                            == S::spec_zero() by {
                            let col = p.l@[step as int]@;
                            if row_has(col, i) {
                                assert(feeds(p.l@, p.pos@, reach@[idx as int] as int, i));
                                let a = choose|a: int| 0 <= a < idx && #[trigger] reach@[a] == i;
                                assert(marked@[i]);
                            }
                        }
                    }
                    if S::exact() {
                        S::laws(xr, xr, xr);
                        assert forall|i: int| 0 <= i < n implies #[trigger] start[i]
                            == x@[i].spec_plus(
                            sum(p.steps(), taken(p, reach@, x@, idx as int, i)),
                        ) by {
                            lemma_eliminate_one(
                                p,
                                n,
                                reach@,
                                marked@,
                                x1,
                                x@,
                                idx as int,
                                step as int,
                                start[i],
                                i,
                            );
                        }
                    }
                }
            },
            None => {
                proof {
                    if S::exact() {
                        assert forall|i: int| 0 <= i < n implies #[trigger] start[i]
                            == x@[i].spec_plus(
                            sum(p.steps(), taken(p, reach@, x@, idx as int, i)),
                        ) by {
                            let f = taken(p, reach@, x@, idx + 1, i);
                            let g = taken(p, reach@, x@, idx as int, i);
                            assert forall|s: int| 0 <= s < p.steps() implies #[trigger] f(s)
                                == g(s) by {
                                assert(p.pos@[p.pivot_row@[s] as int] == s);
                                assert(done(p, reach@, idx + 1, s) == done(
                                    p,
                                    reach@,
                                    idx as int,
                                    s,
                                )) by {
                                    if done(p, reach@, idx as int, s) {
                                        let q = choose|q: int|
                                            idx <= q < reach@.len() && #[trigger] reach@[q]
                                                == p.pivot_row@[s];
                                        assert(q != idx);
                                        assert(idx + 1 <= q < reach@.len() && reach@[q]
                                            == p.pivot_row@[s]);
                                    }
                                    if done(p, reach@, idx + 1, s) {
                                        let q = choose|q: int|
                                            idx + 1 <= q < reach@.len() && #[trigger] reach@[q]
                                                == p.pivot_row@[s];
                                        assert(idx <= q < reach@.len() && reach@[q]
                                            == p.pivot_row@[s]);
                                    }
                                }
                            }
                            lemma_sum_ext(p.steps(), f, g);
                        }
                    }
                }
            },
        }
    }
    proof {
        if S::exact() {
            assert forall|i: int| 0 <= i < n implies #[trigger] start[i] == x@[i].spec_plus(
                sum(p.steps(), drawn(p, x@, i)),
            ) by {
                let f = taken(p, reach@, x@, 0, i);
                let g = drawn(p, x@, i);
                assert forall|s: int| 0 <= s < p.steps() implies #[trigger] f(s) == g(s) by {
                    if !done(p, reach@, 0, s) {
                        let r = p.pivot_row@[s];
                        assert(!marked@[r as int]) by {
                            if reach@.contains(r) {
                                let q = choose|q: int| 0 <= q < reach@.len() && reach@[q] == r;
                                assert(0 <= q < reach@.len() && reach@[q] == p.pivot_row@[s]);
                            }
                        }
                        S::laws(row_value(p.l@[s]@, i), S::spec_zero(), S::spec_zero());
                    }
                }
                lemma_sum_ext(p.steps(), f, g);
            }
        }
    }
}

/// The row to pivot on, if any reached row is usable.
fn choose_pivot<S: Scalar>(p: &Partial<S>, x: &Vec<S>, reach: &Vec<usize>) -> (r: Option<usize>)
    requires
        p.pos@.len() == x@.len(),
        forall|b: int| 0 <= b < reach@.len() ==> (#[trigger] reach@[b]) < x@.len(),
    ensures
        r == pivot_scan(x@, p.pos@, reach@, reach@.len()).0,
        r matches Some(i) ==> reach@.contains(i) && p.pos@[i as int] == usize::MAX,
        S::exact() ==> match r {
            Some(i) => x@[i as int] != S::spec_zero(),
            None => forall|b: int|
                0 <= b < reach@.len() && p.pos@[(#[trigger] reach@[b]) as int] == usize::MAX
                    ==> x@[reach@[b] as int] == S::spec_zero(),
        },
{
    let mut best: Option<usize> = None;
    let mut mag: S = S::zero();
    let mut b: usize = 0;
    while b < reach.len()
        invariant
            b <= reach@.len(),
            p.pos@.len() == x@.len(),
            forall|b: int| 0 <= b < reach@.len() ==> (#[trigger] reach@[b]) < x@.len(),
            (best, mag) == pivot_scan(x@, p.pos@, reach@, b as nat),
            best matches Some(i) ==> reach@.contains(i) && p.pos@[i as int] == usize::MAX && mag
                == x@[i as int].spec_abs(),
            best is None ==> mag == S::spec_zero(),
            S::exact() ==> match best {
                Some(i) => x@[i as int] != S::spec_zero(),
                None => forall|c: int|
                    0 <= c < b && p.pos@[(#[trigger] reach@[c]) as int] == usize::MAX
                        ==> x@[reach@[c] as int] == S::spec_zero(),
            },
        decreases reach@.len() - b,
    {
        let i: usize = reach[b];
        let a: S = x[i].abs();
        proof {
            assert(reach@.contains(i));
            if S::exact() {
                S::laws(x@[i as int], x@[i as int], x@[i as int]);
                S::laws(S::spec_zero(), x@[i as int], x@[i as int]);
                if best is Some {
                    S::laws(x@[best->0 as int], x@[i as int], x@[i as int]);
                }
            }
        }
        if p.pos[i] == usize::MAX && mag.less(a) {
            best = Some(i);
            mag = a;
        }
        b = b + 1;
    }
    best
}

/// `i` is among the first `b` reached rows.
spec fn seen_by(reach: Seq<usize>, b: int, i: int) -> bool {
    exists|c: int| 0 <= c < b && #[trigger] reach[c] == i
}

/// The new column of U: what the eliminated column holds on pivoted rows.
fn collect_upper<S: Scalar>(p: &Partial<S>, x: &Vec<S>, reach: &Vec<usize>) -> (col: Vec<
    (usize, S),
>)
    requires
        p.wf(x@.len()),
        forall|b: int| 0 <= b < reach@.len() ==> (#[trigger] reach@[b]) < x@.len(),
        forall|a: int, b: int|
            0 <= a < b < reach@.len() ==> #[trigger] reach@[a] != #[trigger] reach@[b],
    ensures
        distinct(col@),
        columns_below(col@, p.steps() as int),
        forall|s: int|
            0 <= s < p.steps() ==> (#[trigger] row_has(col@, s) <==> reach@.contains(
                p.pivot_row@[s],
            )),
        forall|s: int|
            0 <= s < p.steps() && row_has(col@, s) ==> #[trigger] row_value(col@, s)
                == x@[p.pivot_row@[s] as int],
        col@ == p.stage().upper_part(x@, reach@, reach@.len()),
{
    let mut col: Vec<(usize, S)> = Vec::new();
    let k: usize = p.pivot_row.len();
    let mut b: usize = 0;
    while b < reach.len()
        invariant
            b <= reach@.len(),
            p.wf(x@.len()),
            k == p.steps(),
            forall|b: int| 0 <= b < reach@.len() ==> (#[trigger] reach@[b]) < x@.len(),
            forall|a: int, b: int|
                0 <= a < b < reach@.len() ==> #[trigger] reach@[a] != #[trigger] reach@[b],
            distinct(col@),
            columns_below(col@, k as int),
            col@ == p.stage().upper_part(x@, reach@, b as nat),
            forall|s: int|
                0 <= s < k ==> (#[trigger] row_has(col@, s) <==> seen_by(
                    reach@,
                    b as int,
                    p.pivot_row@[s] as int,
                )),
            forall|s: int|
                0 <= s < k && row_has(col@, s) ==> #[trigger] row_value(col@, s)
                    == x@[p.pivot_row@[s] as int],
        decreases reach@.len() - b,
    {
        let i: usize = reach[b];
        let ghost col1 = col@;
        match pivot_index(i, &p.pos) {
            Some(step) => {
                let xi: S = x[i];
                proof {
                    assert(p.pivot_row@[step as int] == i);
                    assert(!row_has(col@, step as int)) by {
                        if seen_by(reach@, b as int, i as int) {
                            let c = choose|c: int| 0 <= c < b && #[trigger] reach@[c] == i;
                            assert(reach@[c] != reach@[b as int]);
                        }
                    }
                    lemma_distinct_push(col@, step, xi);
                }
                col.push((step, xi));
            },
            None => {},
        }
        proof {
            assert forall|s: int| 0 <= s < k implies (#[trigger] row_has(col@, s) <==> seen_by(
                reach@,
                b + 1,
                p.pivot_row@[s] as int,
            )) by {
                assert(p.pos@[p.pivot_row@[s] as int] == s);
                let r = p.pivot_row@[s] as int;
                if seen_by(reach@, b as int, r) {
                    let c = choose|c: int| 0 <= c < b && #[trigger] reach@[c] == r;
                    assert(0 <= c < b + 1 && reach@[c] == r);
                }
                if seen_by(reach@, b + 1, r) {
                    let c = choose|c: int| 0 <= c < b + 1 && #[trigger] reach@[c] == r;
                    if c < b {
                        assert(seen_by(reach@, b as int, r));
                    }
                }
                if r == i {
                    assert(reach@[b as int] == r);
                }
            }
        }
        b = b + 1;
    }
    proof {
        assert forall|s: int| 0 <= s < k implies (#[trigger] row_has(col@, s)
            <==> reach@.contains(p.pivot_row@[s])) by {
            let r = p.pivot_row@[s] as int;
            if seen_by(reach@, reach@.len() as int, r) {
                let c = choose|c: int| 0 <= c < reach@.len() && #[trigger] reach@[c] == r;
                assert(reach@[c] == p.pivot_row@[s]);
            }
            if reach@.contains(p.pivot_row@[s]) {
                let c = choose|c: int| 0 <= c < reach@.len() && reach@[c] == p.pivot_row@[s];
                assert(reach@[c] == r);
            }
        }
    }
    col
}

/// Row `i` gets an entry in the new column of L.
spec fn goes_lower<S: Scalar>(p: &Partial<S>, x: Seq<S>, piv: usize, i: int) -> bool {
    p.pos@[i] == usize::MAX && i != piv && !x[i].spec_is_zero()
}

/// The new column of L: the rows not pivoted yet, divided by the pivot.
fn collect_lower<S: Scalar>(
    p: &Partial<S>,
    x: &Vec<S>,
    reach: &Vec<usize>,
    piv: usize,
) -> (col: Vec<(usize, S)>)
    requires
        p.wf(x@.len()),
        piv < x@.len(),
        forall|b: int| 0 <= b < reach@.len() ==> (#[trigger] reach@[b]) < x@.len(),
        forall|a: int, b: int|
            0 <= a < b < reach@.len() ==> #[trigger] reach@[a] != #[trigger] reach@[b],
    ensures
        distinct(col@),
        columns_below(col@, x@.len() as int),
        forall|i: int|
            0 <= i < x@.len() ==> (#[trigger] row_has(col@, i) <==> seen_by(
                reach@,
                reach@.len() as int,
                i,
            ) && goes_lower(p, x@, piv, i)),
        forall|i: int|
            0 <= i < x@.len() && row_has(col@, i) ==> #[trigger] row_value(col@, i)
                == x@[i].spec_over(x@[piv as int]),
        col@ == p.stage().lower_part(x@, reach@, piv, reach@.len()),
{
    let mut col: Vec<(usize, S)> = Vec::new();
    let pivot: S = x[piv];
    let mut b: usize = 0;
    while b < reach.len()
        invariant
            b <= reach@.len(),
            p.wf(x@.len()),
            piv < x@.len(),
            pivot == x@[piv as int],
            forall|b: int| 0 <= b < reach@.len() ==> (#[trigger] reach@[b]) < x@.len(),
            forall|a: int, b: int|
                0 <= a < b < reach@.len() ==> #[trigger] reach@[a] != #[trigger] reach@[b],
            distinct(col@),
            columns_below(col@, x@.len() as int),
            col@ == p.stage().lower_part(x@, reach@, piv, b as nat),
            forall|i: int|
                0 <= i < x@.len() ==> (#[trigger] row_has(col@, i) <==> seen_by(
                    reach@,
                    b as int,
                    i,
                ) && goes_lower(p, x@, piv, i)),
            forall|i: int|
                0 <= i < x@.len() && row_has(col@, i) ==> #[trigger] row_value(col@, i)
                    == x@[i].spec_over(pivot),
        decreases reach@.len() - b,
    {
        let i: usize = reach[b];
        let xi: S = x[i];
        let ghost col1 = col@;
        proof {
            assert(!seen_by(reach@, b as int, i as int)) by {
                if seen_by(reach@, b as int, i as int) {
                    let c = choose|c: int| 0 <= c < b && #[trigger] reach@[c] == i;
                    assert(reach@[c] != reach@[b as int]);
                }
            }
        }
        if p.pos[i] == usize::MAX && i != piv && !xi.is_zero() {
            proof {
                lemma_distinct_push(col@, i, xi.spec_over(pivot));
            }
            col.push((i, xi.over(pivot)));
        }
        proof {
            assert forall|r: int| 0 <= r < x@.len() implies (#[trigger] row_has(col@, r)
                <==> seen_by(reach@, b + 1, r) && goes_lower(p, x@, piv, r)) by {
                assert(row_has(col1, r) <==> seen_by(reach@, b as int, r) && goes_lower(
                    p,
                    x@,
                    piv,
                    r,
                ));
                if seen_by(reach@, b as int, r) {
                    let c = choose|c: int| 0 <= c < b && #[trigger] reach@[c] == r;
                    assert(0 <= c < b + 1 && reach@[c] == r);
                }
                if seen_by(reach@, b + 1, r) {
                    let c = choose|c: int| 0 <= c < b + 1 && #[trigger] reach@[c] == r;
                    if c < b {
                        assert(seen_by(reach@, b as int, r));
                    }
                }
                if r == i {
                    assert(reach@[b as int] == r);
                }
            }
        }
        b = b + 1;
    }
    col
}

/// Zero the scratch column again.
fn clear_reached<S: Scalar>(x: &mut Vec<S>, marked: &mut Vec<bool>, reach: &mut Vec<usize>)
    requires
        zero_off(old(x)@, old(marked)@),
        forall|b: int| 0 <= b < old(reach)@.len() ==> (#[trigger] old(reach)@[b]) < old(x)@.len(),
        forall|i: usize|
            i < old(x)@.len() ==> (#[trigger] old(marked)@[i as int] <==> old(reach)@.contains(i)),
    ensures
        final(reach)@.len() == 0,
        final(x)@.len() == old(x)@.len(),
        final(marked)@.len() == old(x)@.len(),
        forall|i: int| 0 <= i < final(x)@.len() ==> !#[trigger] final(marked)@[i],
        forall|i: int| 0 <= i < final(x)@.len() ==> #[trigger] final(x)@[i] == S::spec_zero(),
{
    let n: usize = x.len();
    let mut b: usize = 0;
    let ghost marked0 = marked@;
    while b < reach.len()
        invariant
            b <= reach@.len(),
            x@.len() == n,
            marked@.len() == n,
            marked0.len() == n,
            forall|b: int| 0 <= b < reach@.len() ==> (#[trigger] reach@[b]) < n,
            forall|i: usize| i < n ==> (#[trigger] marked0[i as int] <==> reach@.contains(i)),
            forall|i: int| 0 <= i < n && !marked0[i] ==> !#[trigger] marked@[i],
            forall|i: int| 0 <= i < n && !marked0[i] ==> #[trigger] x@[i] == S::spec_zero(),
            forall|c: int| 0 <= c < b ==> !marked@[(#[trigger] reach@[c]) as int],
            forall|c: int| 0 <= c < b ==> x@[(#[trigger] reach@[c]) as int] == S::spec_zero(),
        decreases reach@.len() - b,
    {
        let i: usize = reach[b];
        x.set(i, S::zero());
        marked.set(i, false);
        b = b + 1;
    }
    proof {
        assert forall|i: int| 0 <= i < n implies !#[trigger] marked@[i] && x@[i]
            == S::spec_zero() by {
            if marked0[i] {
                assert(marked0[(i as usize) as int]);
                let c = choose|c: int| 0 <= c < reach@.len() && reach@[c] == i as usize;
                assert(reach@[c] == i);
            }
        }
        assert forall|i: int| 0 <= i < n implies #[trigger] x@[i] == S::spec_zero() by {
            assert(!marked@[i]);
        }
    }
    reach.clear();
}

/// What a column came to after elimination fixes the next column of the factors.
proof fn lemma_step<S: Scalar>(
    p: &Partial<S>,
    q: &Partial<S>,
    n: nat,
    x: Seq<S>,
    piv: usize,
    i: int,
    start: S,
)
    requires
        S::exact(),
        p.wf(n),
        x.len() == n,
        n <= usize::MAX,
        p.steps() < n,
        piv < n,
        p.pos@[piv as int] == usize::MAX,
        x[piv as int] != S::spec_zero(),
        0 <= i < n,
        start == x[i].spec_plus(sum(p.steps(), drawn(p, x, i))),
        q.pivot_row@ == p.pivot_row@.push(piv),
        q.diag@ == p.diag@.push(x[piv as int]),
        q.l@.len() == p.steps() + 1,
        q.u@.len() == p.steps() + 1,
        forall|s: int| 0 <= s < p.steps() ==> q.l@[s] == p.l@[s],
        forall|s: int|
            0 <= s < p.steps() ==> #[trigger] row_value(q.u@[p.steps() as int]@, s)
                == x[p.pivot_row@[s] as int],
        forall|r: int|
            0 <= r < n && r != piv ==> #[trigger] row_value(q.l@[p.steps() as int]@, r) == (if p.pos@[r]
                == usize::MAX && x[r] != S::spec_zero() {
                x[r].spec_over(x[piv as int])
            } else {
                S::spec_zero()
            }),
    ensures
        start == sum((p.steps() + 1) as nat, q.terms(i, p.steps() as int)),
{
    let k = p.steps();
    let f = drawn(p, x, i);
    let g = q.terms(i, k as int);
    let d = x[piv as int];
    let one = S::spec_int(1);
    let tail = q.lower(i, k as int).spec_times(q.upper(k as int, k as int));
    assert(g(k as int) == tail);
    assert(sum((k + 1) as nat, g) == sum(k, g).spec_plus(tail));
    assert forall|s: int| 0 <= s < k implies #[trigger] g(s) == q.lower(i, s).spec_times(
        x[p.pivot_row@[s] as int],
    ) by {
        assert(row_value(q.u@[k as int]@, s) == x[p.pivot_row@[s] as int]);
    }
    if p.pos@[i] != usize::MAX {
        // A row pivoted earlier: its own step carries the unit of L.
        let si = p.pos@[i] as int;
        assert(p.pivot_row@[si] == i);
        assert(i != piv);
        assert(row_value(p.l@[si]@, i) == S::spec_zero()) by {
            if row_has(p.l@[si]@, i) {
                let b = row_pos(p.l@[si]@, i);
                assert(p.l@[si]@[b].0 == i);
            }
        }
        assert forall|s: int| 0 <= s < k && s != si implies #[trigger] f(s) == g(s) by {
            assert(p.pos@[p.pivot_row@[s] as int] == s);
        }
        assert(g(si) == f(si).spec_plus(x[i])) by {
            S::laws(x[i], one, x[i]);
            S::laws(one, x[i], x[i]);
            S::laws(S::spec_zero(), x[i], x[i]);
            S::laws(x[i], S::spec_zero(), x[i]);
        }
        lemma_sum_bump(k, f, g, si, x[i]);
        assert(tail == S::spec_zero()) by {
            assert(q.lower(i, k as int) == S::spec_zero());
            S::laws(S::spec_zero(), d, d);
            S::laws(d, S::spec_zero(), d);
        }
        S::laws(sum(k, g), tail, tail);
        S::laws(x[i], sum(k, f), d);
    } else {
        assert forall|s: int| 0 <= s < k implies #[trigger] f(s) == g(s) by {
            assert(p.pos@[p.pivot_row@[s] as int] == s);
        }
        lemma_sum_ext(k, f, g);
        assert(tail == x[i]) by {
            if i == piv {
                S::laws(d, one, d);
                S::laws(one, d, d);
            } else if x[i] != S::spec_zero() {
                S::laws(x[i], d, d);
            } else {
                S::laws(S::spec_zero(), d, d);
                S::laws(d, S::spec_zero(), d);
            }
        }
        S::laws(x[i], sum(k, f), d);
    }
}

impl<S: Scalar> Partial<S> {
    /// Factors of an `n x n` matrix before any step.
    pub fn start(n: usize) -> (p: Self)
        ensures
            p.wf(n as nat),
            p.steps() == 0,
            p.stage() == Stage::<S>::start(n as nat),
    {
        let mut pos: Vec<usize> = Vec::new();
        let mut i: usize = 0;
        while i < n
            invariant
                i <= n,
                pos@.len() == i,
                forall|j: int| 0 <= j < i ==> #[trigger] pos@[j] == usize::MAX,
            decreases n - i,
        {
            pos.push(usize::MAX);
            i = i + 1;
        }
        let p = Partial {
            pos,
            pivot_row: Vec::new(),
            diag: Vec::new(),
            l: Vec::new(),
            u: Vec::new(),
        };
        proof {
            let s = p.stage();
            let first = Stage::<S>::start(n as nat);
            assert(s.pos =~= first.pos);
            assert(s.pivot_row =~= first.pivot_row);
            assert(s.diag =~= first.diag);
            assert(s.l =~= first.l);
            assert(s.u =~= first.u);
        }
        p
    }

    /// Eliminate one more column. `false` leaves the factors as they were: no
    /// reached row that is not pivoted yet holds a usable value.
    pub fn advance(
        &mut self,
        col: &Vec<(usize, S)>,
        x: &mut Vec<S>,
        marked: &mut Vec<bool>,
        reach: &mut Vec<usize>,
    ) -> (ok: bool)
        requires
            old(self).wf(old(x)@.len()),
            old(self).steps() < old(x)@.len(),
            increasing(col@),
            columns_below(col@, old(x)@.len() as int),
            old(marked)@.len() == old(x)@.len(),
            old(reach)@.len() == 0,
            forall|i: int| 0 <= i < old(x)@.len() ==> !#[trigger] old(marked)@[i],
            forall|i: int| 0 <= i < old(x)@.len() ==> #[trigger] old(x)@[i] == S::spec_zero(),
        ensures
            final(x)@.len() == old(x)@.len(),
            final(marked)@.len() == old(x)@.len(),
            final(reach)@.len() == 0,
            forall|i: int| 0 <= i < final(x)@.len() ==> !#[trigger] final(marked)@[i],
            forall|i: int| 0 <= i < final(x)@.len() ==> #[trigger] final(x)@[i] == S::spec_zero(),
            final(self).wf(old(x)@.len()),
            !ok ==> *final(self) == *old(self),
            ok ==> final(self).extends(old(self)),
            match old(self).stage().next(col@, old(x)@.len()) {
                Some(s) => ok && final(self).stage() == s,
                None => !ok,
            },
            S::exact() && ok ==> forall|i: int|
                0 <= i < old(x)@.len() ==> #[trigger] row_value(col@, i) == sum(
                    (old(self).steps() + 1) as nat,
                    final(self).terms(i, old(self).steps() as int),
                ),
            S::exact() && !ok ==> exists|c: Seq<S>| #[trigger] old(self).spans(col@, c),
    {
        let size: usize = x.len();
        let ghost n = size as nat;
        let ghost before = *self;
        let k: usize = self.pivot_row.len();
        gather(self, col, x, marked, reach);
        let ghost start = x@;
        eliminate_reached(self, x, marked, reach);
        let chosen: Option<usize> = choose_pivot(self, x, reach);
        let piv: usize = match chosen {
            None => {
                proof {
                    if S::exact() {
                        assert forall|i: int| 0 <= i < n implies #[trigger] row_value(col@, i)
                            == x@[i].spec_plus(sum(self.steps(), drawn(self, x@, i))) by {
                            assert(start[i] == row_value(col@, i));
                        }
                        lemma_no_pivot(self, n, col@, x@, marked@, reach@);
                    }
                }
                clear_reached(x, marked, reach);
                return false;
            },
            Some(r) => r,
        };
        let ghost xf = x@;
        let ucol: Vec<(usize, S)> = collect_upper(self, x, reach);
        let lcol: Vec<(usize, S)> = collect_lower(self, x, reach, piv);
        let pivot: S = x[piv];
        proof {
            assert forall|s: int| 0 <= s < k implies #[trigger] row_value(ucol@, s)
                == xf[self.pivot_row@[s] as int] by {
                let r = self.pivot_row@[s];
                if !row_has(ucol@, s) {
                    assert(!marked@[r as int]);
                }
            }
            if S::exact() {
                assert forall|r: int| 0 <= r < n && r != piv implies #[trigger] row_value(lcol@, r)
                    == (if self.pos@[r] == usize::MAX && xf[r] != S::spec_zero() {
                    xf[r].spec_over(xf[piv as int])
                } else {
                    S::spec_zero()
                }) by {
                    S::laws(xf[r], xf[r], xf[r]);
                    if self.pos@[r] == usize::MAX && xf[r] != S::spec_zero() {
                        assert(marked@[r]);
                        assert(marked@[(r as usize) as int]);
                        let c = choose|c: int| 0 <= c < reach@.len() && reach@[c] == r as usize;
                        assert(reach@[c] == r);
                        assert(row_has(lcol@, r));
                    } else {
                        assert(!row_has(lcol@, r));
                    }
                }
            }
        }
        self.pos.set(piv, k);
        self.pivot_row.push(piv);
        self.diag.push(pivot);
        self.l.push(lcol);
        self.u.push(ucol);
        proof {
            assert(self.extends(&before));
            let now = self.stage();
            let step = before.stage().next(col@, n)->0;
            assert(now.pos =~= step.pos);
            assert(now.pivot_row =~= step.pivot_row);
            assert(now.diag =~= step.diag);
            assert(now.l =~= step.l);
            assert(now.u =~= step.u);
            assert(before.pos@[piv as int] == usize::MAX);
            assert forall|s: int| 0 <= s < self.steps() implies (#[trigger] self.pivot_row@[s]) < n
                && self.pos@[self.pivot_row@[s] as int] == s by {
                if s < k {
                    assert(self.pivot_row@[s] == before.pivot_row@[s]);
                    assert(before.pos@[before.pivot_row@[s] as int] == s);
                }
            }
            assert forall|i: int| 0 <= i < n && #[trigger] self.pos@[i] != usize::MAX implies self.pos@[i]
                < self.steps() && self.pivot_row@[self.pos@[i] as int] == i by {
                if i != piv {
                    assert(self.pos@[i] == before.pos@[i]);
                }
            }
            assert(forward_only(self.l@, self.pos@)) by {
                assert forall|s: int, b: int|
                    0 <= s < self.l@.len() && 0 <= b < self.l@[s]@.len() implies (
                #[trigger] self.l@[s]@[b]).0 < self.pos@.len() && self.pos@[self.l@[s]@[b].0 as int]
                    > s by {
                    let r = self.l@[s]@[b].0;
                    if s < k {
                        assert(self.l@[s] == before.l@[s]);
                        assert(before.l@[s]@[b].0 < n);
                    } else {
                        lemma_distinct_pos(lcol@, b);
                        assert(row_has(lcol@, r as int));
                    }
                }
            }
            assert forall|s: int| 0 <= s < self.steps() implies distinct(
                #[trigger] self.l@[s]@,
            ) by {
                if s < k {
                    assert(self.l@[s] == before.l@[s]);
                }
            }
            assert forall|t: int| 0 <= t < self.steps() implies distinct(#[trigger] self.u@[t]@)
                && columns_below(self.u@[t]@, t) by {
                if t < k {
                    assert(self.u@[t] == before.u@[t]);
                }
            }
            if S::exact() {
                assert forall|s: int| 0 <= s < self.steps() implies #[trigger] self.diag@[s]
                    != S::spec_zero() by {
                    if s < k {
                        assert(self.diag@[s] == before.diag@[s]);
                    }
                }
                assert forall|i: int| 0 <= i < n implies #[trigger] row_value(col@, i) == sum(
                    (k + 1) as nat,
                    self.terms(i, k as int),
                ) by {
                    assert(start[i] == row_value(col@, i));
                    assert(start[i] == xf[i].spec_plus(sum(before.steps(), drawn(&before, xf, i))));
                    lemma_step(&before, self, n, xf, piv, i, start[i]);
                }
            }
        }
        clear_reached(x, marked, reach);
        true
    }

    /// `self` is `before` with one more step.
    pub open spec fn extends(&self, before: &Self) -> bool {
        let k = before.steps() as int;
        &&& self.steps() == k + 1
        &&& self.diag@.len() == k + 1
        &&& self.l@.len() == k + 1
        &&& self.u@.len() == k + 1
        &&& forall|s: int| 0 <= s < k ==> #[trigger] self.pivot_row@[s] == before.pivot_row@[s]
        &&& forall|s: int| 0 <= s < k ==> #[trigger] self.diag@[s] == before.diag@[s]
        &&& forall|s: int| 0 <= s < k ==> #[trigger] self.l@[s] == before.l@[s]
        &&& forall|s: int| 0 <= s < k ==> #[trigger] self.u@[s] == before.u@[s]
    }

    /// The column is a combination of the columns of L so far.
    pub open spec fn spans(&self, col: Seq<(usize, S)>, c: Seq<S>) -> bool {
        &&& c.len() == self.steps()
        &&& forall|i: int|
            0 <= i < self.pos@.len() ==> #[trigger] row_value(col, i) == sum(
                self.steps(),
                |s: int| self.lower(i, s).spec_times(c[s]),
            )
    }
}

proof fn lemma_no_pivot<S: Scalar>(
    p: &Partial<S>,
    n: nat,
    col: Seq<(usize, S)>,
    x: Seq<S>,
    marked: Seq<bool>,
    reach: Seq<usize>,
)
    requires
        S::exact(),
        p.wf(n),
        x.len() == n,
        n <= usize::MAX,
        reach_ok(p.l@, p.pos@, marked, reach),
        zero_off(x, marked),
        forall|i: int|
            0 <= i < n ==> #[trigger] row_value(col, i) == x[i].spec_plus(
                sum(p.steps(), drawn(p, x, i)),
            ),
        forall|b: int|
            0 <= b < reach.len() && p.pos@[(#[trigger] reach[b]) as int] == usize::MAX
                ==> x[reach[b] as int] == S::spec_zero(),
    ensures
        exists|c: Seq<S>| #[trigger] p.spans(col, c),
{
    let k = p.steps();
    let c = Seq::new(k, |s: int| x[p.pivot_row@[s] as int]);
    let one = S::spec_int(1);
    assert forall|i: int| 0 <= i < n implies #[trigger] row_value(col, i) == sum(
        k,
        |s: int| p.lower(i, s).spec_times(c[s]),
    ) by {
        let f = drawn(p, x, i);
        let g = |s: int| p.lower(i, s).spec_times(c[s]);
        if p.pos@[i] != usize::MAX {
            let si = p.pos@[i] as int;
            assert(p.pivot_row@[si] == i);
            assert(row_value(p.l@[si]@, i) == S::spec_zero()) by {
                if row_has(p.l@[si]@, i) {
                    let b = row_pos(p.l@[si]@, i);
                    assert(p.l@[si]@[b].0 == i);
                }
            }
            assert forall|s: int| 0 <= s < k && s != si implies #[trigger] f(s) == g(s) by {
                assert(p.pos@[p.pivot_row@[s] as int] == s);
            }
            assert(g(si) == f(si).spec_plus(x[i])) by {
                S::laws(x[i], one, x[i]);
                S::laws(one, x[i], x[i]);
                S::laws(S::spec_zero(), x[i], x[i]);
                S::laws(x[i], S::spec_zero(), x[i]);
            }
            lemma_sum_bump(k, f, g, si, x[i]);
            S::laws(x[i], sum(k, f), one);
        } else {
            assert forall|s: int| 0 <= s < k implies #[trigger] f(s) == g(s) by {
                assert(p.pos@[p.pivot_row@[s] as int] == s);
            }
            lemma_sum_ext(k, f, g);
            assert(x[i] == S::spec_zero()) by {
                if marked[i] {
                    assert(marked[(i as usize) as int]);
                    let b = choose|b: int| 0 <= b < reach.len() && reach[b] == i as usize;
                    assert(p.pos@[reach[b] as int] == usize::MAX);
                }
            }
            S::laws(sum(k, f), x[i], one);
            S::laws(x[i], sum(k, f), one);
        }
    }
    assert(p.spans(col, c));
}

} // verus!
