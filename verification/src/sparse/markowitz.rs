//! The dynamic factorization: Markowitz pivots first, unit anchors for whatever
//! is numerically empty.
use vstd::prelude::*;

use crate::scalar::Scalar;
use crate::sparse::active::Active;
use crate::sparse::algebra::{image, is_permutation, lemma_sum_ext, sum};
use crate::sparse::column::{distinct, lemma_distinct_pos, lemma_distinct_push};
use crate::sparse::dynamic::{eliminate_pivot, is_merged, merged_has, merged_value, step_taken};
use crate::sparse::factor::Partial;
use crate::sparse::matrix::{
    columns_below, find_col, increasing, row_has, row_pos, row_value, SparseMatrix,
};
use crate::sparse::pivoting::{best_pivot, dynamic, lemma_first_unset, trail, Trail};
use crate::sparse::reach::forward_only;
use crate::sparse::triangular::{columns, is_upper};

verus! {

/// The factorization under way. L is stored by step and original row, U by step
/// and original column.
pub struct Dynamic<S> {
    pub active: Active<S>,
    pub pos: Vec<usize>,
    pub pivot_row: Vec<usize>,
    pub perm: Vec<usize>,
    pub diag: Vec<S>,
    pub l: Vec<Vec<(usize, S)>>,
    pub urow: Vec<Vec<(usize, S)>>,
}

/// A pivot that can be divided by: one, or a number that is not zero.
pub open spec fn usable<S: Scalar>(pivot: S) -> bool {
    pivot == S::spec_int(1) || !pivot.spec_is_zero()
}

impl<S: Scalar> Dynamic<S> {
    /// The number of steps taken.
    pub open spec fn steps(&self) -> nat {
        self.perm@.len()
    }

    /// The factorization under way as sequences.
    pub open spec fn trail(&self) -> Trail<S> {
        Trail {
            rest: self.active@,
            pos: self.pos@,
            pivot_row: self.pivot_row@,
            perm: self.perm@,
            diag: self.diag@,
            l: columns(self.l@),
            urow: columns(self.urow@),
        }
    }

    /// Structure of the factorization of an `n x n` matrix.
    pub open spec fn wf(&self, n: nat) -> bool {
        let k = self.steps();
        &&& k <= n
        &&& self.active.wf(n)
        &&& self.pos@.len() == n
        &&& self.pivot_row@.len() == k
        &&& self.diag@.len() == k
        &&& self.l@.len() == k
        &&& self.urow@.len() == k
        &&& forall|s: int|
            0 <= s < k ==> (#[trigger] self.pivot_row@[s]) < n
                && self.pos@[self.pivot_row@[s] as int] == s
        &&& forall|i: int|
            0 <= i < n && #[trigger] self.pos@[i] != usize::MAX ==> self.pos@[i] < k
                && self.pivot_row@[self.pos@[i] as int] == i
        &&& forall|i: int|
            0 <= i < n ==> (#[trigger] self.active.row_gone@[i] <==> self.pos@[i] != usize::MAX)
        &&& forall|s: int| 0 <= s < k ==> (#[trigger] self.perm@[s]) < n
        &&& forall|s: int, t: int|
            0 <= s < t < k ==> #[trigger] self.perm@[s] != #[trigger] self.perm@[t]
        &&& forall|j: int|
            0 <= j < n ==> (#[trigger] self.active.col_gone@[j] <==> image(self.perm@, k, j))
        &&& forward_only(self.l@, self.pos@)
        &&& forall|s: int| 0 <= s < k ==> distinct(#[trigger] self.l@[s]@)
        &&& forall|s: int|
            0 <= s < k ==> increasing(#[trigger] self.urow@[s]@) && columns_below(
                self.urow@[s]@,
                n as int,
            )
        &&& forall|s: int, t: int|
            0 <= t <= s < k ==> !(#[trigger] row_has(
                (#[trigger] self.urow@[s])@,
                self.perm@[t] as int,
            ))
        &&& forall|s: int| 0 <= s < k ==> usable(#[trigger] self.diag@[s])
        &&& S::exact() ==> forall|s: int| 0 <= s < k ==> #[trigger] self.diag@[s] != S::spec_zero()
    }

    /// L at original row `i` and step `s`, with its unit diagonal.
    pub open spec fn lower(&self, i: int, s: int) -> S {
        if self.pivot_row@[s] == i {
            S::spec_int(1)
        } else {
            row_value(self.l@[s]@, i)
        }
    }

    /// U at step `s` and original column `j`, with its diagonal.
    pub open spec fn upper(&self, s: int, j: int) -> S {
        if self.perm@[s] == j {
            self.diag@[s]
        } else {
            row_value(self.urow@[s]@, j)
        }
    }

    /// The products `L(i, s) * U(s, j)`.
    pub open spec fn terms(&self, i: int, j: int) -> spec_fn(int) -> S {
        |s: int| self.lower(i, s).spec_times(self.upper(s, j))
    }

    /// Step `s` pivots on `(i, j)`.
    pub open spec fn pivots_on(&self, s: int, i: int, j: int) -> bool {
        self.pivot_row@[s] == i && self.perm@[s] == j
    }

    /// A step from `rank` on anchors `(i, j)`.
    pub open spec fn anchors(&self, rank: nat, i: int, j: int) -> bool {
        exists|s: int| rank <= s < self.steps() && #[trigger] self.pivots_on(s, i, j)
    }

    /// `m` with a unit added at every anchor.
    pub open spec fn anchored(&self, m: &SparseMatrix<S>, rank: nat, i: int, j: int) -> S {
        if self.anchors(rank, i, j) {
            m.value(i, j).spec_plus(S::spec_int(1))
        } else {
            m.value(i, j)
        }
    }

    /// Step `s` is an anchor: a unit pivot with nothing below it and beside it.
    pub open spec fn unit_step(&self, s: int) -> bool {
        self.l@[s]@.len() == 0 && self.urow@[s]@.len() == 0 && self.diag@[s] == S::spec_int(1)
    }

    /// The product of the factors plus what is left is the anchored matrix;
    /// once a step anchors, nothing is left.
    pub open spec fn accounts(&self, m: &SparseMatrix<S>, rank: nat) -> bool {
        let n = m.spec_dim() as int;
        &&& rank <= self.steps()
        &&& forall|s: int|
            rank <= s < self.steps() ==> #[trigger] self.unit_step(s)
        &&& forall|i: int, j: int|
            0 <= i < n && 0 <= j < n ==> #[trigger] self.active.left(i, j) == S::spec_zero()
                || rank == self.steps()
        &&& forall|i: int, j: int|
            0 <= i < n && 0 <= j < n ==> sum(self.steps(), self.terms(i, j)).spec_plus(
                #[trigger] self.active.left(i, j),
            ) == self.anchored(m, rank, i, j)
    }

    /// `self` is `before` with one more step.
    pub open spec fn extends(&self, before: &Self) -> bool {
        let k = before.steps() as int;
        &&& self.steps() == k + 1
        &&& self.pivot_row@.len() == k + 1
        &&& self.diag@.len() == k + 1
        &&& self.l@.len() == k + 1
        &&& self.urow@.len() == k + 1
        &&& forall|s: int| 0 <= s < k ==> #[trigger] self.pivot_row@[s] == before.pivot_row@[s]
        &&& forall|s: int| 0 <= s < k ==> #[trigger] self.perm@[s] == before.perm@[s]
        &&& forall|s: int| 0 <= s < k ==> #[trigger] self.diag@[s] == before.diag@[s]
        &&& forall|s: int| 0 <= s < k ==> #[trigger] self.l@[s] == before.l@[s]
        &&& forall|s: int| 0 <= s < k ==> #[trigger] self.urow@[s] == before.urow@[s]
    }

    proof fn lemma_terms_kept(&self, before: &Self, i: int, j: int)
        requires
            self.extends(before),
        ensures
            sum(before.steps(), self.terms(i, j)) == sum(before.steps(), before.terms(i, j)),
    {
        let f = self.terms(i, j);
        let g = before.terms(i, j);
        assert forall|s: int| 0 <= s < before.steps() implies #[trigger] f(s) == g(s) by {
            assert(self.l@[s] == before.l@[s]);
            assert(self.urow@[s] == before.urow@[s]);
            assert(self.pivot_row@[s] == before.pivot_row@[s]);
            assert(self.perm@[s] == before.perm@[s]);
            assert(self.diag@[s] == before.diag@[s]);
        }
        lemma_sum_ext(before.steps(), f, g);
    }

    proof fn lemma_anchors_kept(&self, before: &Self, rank: nat, i: int, j: int)
        requires
            self.extends(before),
            before.pivot_row@.len() == before.steps(),
        ensures
            before.anchors(rank, i, j) ==> self.anchors(rank, i, j),
            self.anchors(rank, i, j) ==> before.anchors(rank, i, j) || (rank <= before.steps()
                && self.pivots_on(before.steps() as int, i, j)),
    {
        if before.anchors(rank, i, j) {
            let s = choose|s: int|
                rank <= s < before.steps() && #[trigger] before.pivots_on(s, i, j);
            assert(self.pivots_on(s, i, j));
        }
        if self.anchors(rank, i, j) {
            let s = choose|s: int| rank <= s < self.steps() && #[trigger] self.pivots_on(s, i, j);
            if s < before.steps() {
                assert(before.pivots_on(s, i, j));
            }
        }
    }

    proof fn lemma_pivot_accounts(
        &self,
        before: &Self,
        m: &SparseMatrix<S>,
        n: nat,
        pr: usize,
        pc: usize,
        i: int,
        j: int,
    )
        requires
            S::exact(),
            before.wf(n),
            n <= usize::MAX,
            m.spec_dim() == n,
            before.accounts(m, before.steps()),
            self.extends(before),
            pr < n,
            pc < n,
            !before.active.row_gone@[pr as int],
            !before.active.col_gone@[pc as int],
            row_has(before.active.row@[pr as int]@, pc as int),
            row_value(before.active.row@[pr as int]@, pc as int) != S::spec_zero(),
            self.pivot_row@[before.steps() as int] == pr,
            self.perm@[before.steps() as int] == pc,
            self.diag@[before.steps() as int] == row_value(
                before.active.row@[pr as int]@,
                pc as int,
            ),
            step_taken(
                &before.active,
                &self.active,
                n,
                pr,
                pc,
                self.l@[before.steps() as int]@,
                self.urow@[before.steps() as int]@,
            ),
            0 <= i < n,
            0 <= j < n,
        ensures
            sum(self.steps(), self.terms(i, j)).spec_plus(self.active.left(i, j)) == m.value(i, j),
    {
        let k = before.steps();
        let a = &before.active;
        let b = &self.active;
        let zero = S::spec_zero();
        let one = S::spec_int(1);
        let pivot = row_value(a.row@[pr as int]@, pc as int);
        let lcol = self.l@[k as int]@;
        let urow = self.urow@[k as int]@;
        let head = sum(k, before.terms(i, j));
        self.lemma_terms_kept(before, i, j);
        let low = self.lower(i, k as int);
        let up = self.upper(k as int, j);
        let last = low.spec_times(up);
        let was = a.left(i, j);
        let now = b.left(i, j);
        assert(self.terms(i, j)(k as int) == last);
        assert(sum(self.steps(), self.terms(i, j)) == head.spec_plus(last));
        assert(!before.anchors(k, i, j));
        assert(head.spec_plus(was) == m.value(i, j));
        // The new term makes up for what the step took off.
        assert(was == last.spec_plus(now)) by {
            if i == pr {
                assert(low == one);
                S::laws(up, one, one);
                S::laws(one, up, one);
                assert(now == zero);
                S::laws(up, zero, zero);
                if j == pc {
                    assert(up == pivot);
                } else {
                    assert(up == row_value(urow, j));
                    if a.col_gone@[j] {
                        assert(!row_has(urow, j));
                    } else {
                        if row_has(a.row@[pr as int]@, j) {
                            assert(row_has(urow, j));
                        } else {
                            assert(!row_has(urow, j));
                        }
                    }
                }
            } else if a.row_gone@[i] {
                assert(!row_has(lcol, i));
                assert(low == zero);
                S::laws(zero, up, zero);
                S::laws(up, zero, zero);
                assert(now == zero);
                S::laws(zero, zero, zero);
            } else if !row_has(lcol, i) {
                assert(low == zero);
                S::laws(zero, up, zero);
                S::laws(up, zero, zero);
                assert(b.row@[i]@ == a.row@[i]@);
                if j == pc {
                    assert(!row_has(a.row@[i]@, pc as int));
                }
                assert(now == was);
                S::laws(was, zero, zero);
                S::laws(zero, was, zero);
            } else {
                let x = row_value(a.row@[i]@, pc as int);
                let factor = x.spec_over(pivot);
                assert(low == factor);
                S::laws(x, pivot, pivot);
                if j == pc {
                    assert(up == pivot);
                    assert(now == zero);
                    S::laws(last, zero, zero);
                } else if a.col_gone@[j] {
                    assert(!row_has(urow, j));
                    assert(up == zero);
                    S::laws(low, zero, zero);
                    S::laws(zero, zero, zero);
                } else {
                    let new = b.row@[i]@;
                    let mv = merged_value(a.row@[i]@, urow, factor, j);
                    assert(is_merged(new, a.row@[i]@, urow, pc, factor, n as int));
                    assert(now == mv) by {
                        assert(row_has(new, j) <==> merged_has(a.row@[i]@, urow, pc, factor, j));
                        S::laws(mv, mv, mv);
                        if !row_has(a.row@[i]@, j) && !row_has(urow, j) {
                            assert(mv == zero);
                        }
                    }
                    if row_has(urow, j) {
                        assert(up == row_value(urow, j));
                        S::laws(was, last, last);
                        S::laws(now, last, last);
                    } else {
                        assert(up == zero);
                        S::laws(low, zero, zero);
                        S::laws(was, zero, zero);
                        S::laws(zero, was, zero);
                    }
                }
            }
        }
        S::laws(head, last, now);
    }

    /// Start on `m`.
    fn start(m: &SparseMatrix<S>) -> (d: Self)
        requires
            m.wf(),
        ensures
            d.wf(m.spec_dim()),
            d.steps() == 0,
            d.trail() == Trail::start(m),
            S::exact() ==> d.accounts(m, 0),
    {
        let n: usize = m.dim();
        let active: Active<S> = Active::start(m);
        let mut pos: Vec<usize> = Vec::new();
        let mut i: usize = 0;
        while i < n
            invariant
                i <= n,
                pos@.len() == i,
                forall|j: int| 0 <= j < i ==> #[trigger] pos@[j] == usize::MAX,
            decreases n - i,
        {
            pos.push(usize::MAX);
            i = i + 1;
        }
        let d = Dynamic {
            active,
            pos,
            pivot_row: Vec::new(),
            perm: Vec::new(),
            diag: Vec::new(),
            l: Vec::new(),
            urow: Vec::new(),
        };
        proof {
            let first = Trail::start(m);
            assert(d.trail().pos =~= first.pos);
            assert(d.trail().pivot_row =~= first.pivot_row);
            assert(d.trail().perm =~= first.perm);
            assert(d.trail().diag =~= first.diag);
            assert(d.trail().l =~= first.l);
            assert(d.trail().urow =~= first.urow);
            if S::exact() {
                assert forall|i: int, j: int| 0 <= i < n && 0 <= j < n implies sum(
                    d.steps(),
                    d.terms(i, j),
                ).spec_plus(#[trigger] d.active.left(i, j)) == d.anchored(m, 0, i, j) by {
                    S::laws(S::spec_zero(), m.value(i, j), m.value(i, j));
                    S::laws(m.value(i, j), S::spec_zero(), m.value(i, j));
                }
            }
        }
        d
    }

    /// Record a pivot and what it left behind.
    fn record(
        &mut self,
        n: usize,
        pr: usize,
        pc: usize,
        pivot: S,
        lcol: Vec<(usize, S)>,
        urow: Vec<(usize, S)>,
    )
        requires
            ({
                let k = old(self).steps();
                &&& k < n
                &&& old(self).active.wf(n as nat)
                &&& old(self).pos@.len() == n
                &&& old(self).pivot_row@.len() == k
                &&& old(self).diag@.len() == k
                &&& old(self).l@.len() == k
                &&& old(self).urow@.len() == k
            }),
            pr < n,
            pc < n,
        ensures
            final(self).extends(old(self)),
            final(self).active == old(self).active,
            final(self).pos@ == old(self).pos@.update(pr as int, old(self).steps() as usize),
            final(self).pivot_row@[old(self).steps() as int] == pr,
            final(self).perm@[old(self).steps() as int] == pc,
            final(self).diag@[old(self).steps() as int] == pivot,
            final(self).l@[old(self).steps() as int]@ == lcol@,
            final(self).urow@[old(self).steps() as int]@ == urow@,
            final(self).trail() == old(self).trail().recorded(
                old(self).active@,
                pr,
                pc,
                pivot,
                lcol@,
                urow@,
            ),
    {
        let ghost before = self.trail();
        let k: usize = self.perm.len();
        self.pos.set(pr, k);
        self.pivot_row.push(pr);
        self.perm.push(pc);
        self.diag.push(pivot);
        self.l.push(lcol);
        self.urow.push(urow);
        proof {
            let want = before.recorded(self.active@, pr, pc, pivot, lcol@, urow@);
            assert(self.trail().pos =~= want.pos);
            assert(self.trail().pivot_row =~= want.pivot_row);
            assert(self.trail().perm =~= want.perm);
            assert(self.trail().diag =~= want.diag);
            assert(self.trail().l =~= want.l);
            assert(self.trail().urow =~= want.urow);
        }
    }

    proof fn lemma_extended_wf(&self, before: &Self, n: nat, pr: usize, pc: usize)
        requires
            before.wf(n),
            n <= usize::MAX,
            before.steps() < n,
            pr < n,
            pc < n,
            !before.active.row_gone@[pr as int],
            !before.active.col_gone@[pc as int],
            self.extends(before),
            self.active.wf(n),
            self.active.row_gone@ == before.active.row_gone@.update(pr as int, true),
            self.active.col_gone@ == before.active.col_gone@.update(pc as int, true),
            self.pos@ == before.pos@.update(pr as int, before.steps() as usize),
            self.pivot_row@[before.steps() as int] == pr,
            self.perm@[before.steps() as int] == pc,
            usable(self.diag@[before.steps() as int]),
            S::exact() ==> self.diag@[before.steps() as int] != S::spec_zero(),
            distinct(self.l@[before.steps() as int]@),
            columns_below(self.l@[before.steps() as int]@, n as int),
            forall|i: int|
                0 <= i < n && #[trigger] row_has(self.l@[before.steps() as int]@, i) ==> i != pr
                    && !before.active.row_gone@[i],
            increasing(self.urow@[before.steps() as int]@),
            columns_below(self.urow@[before.steps() as int]@, n as int),
            forall|j: int|
                0 <= j < n && #[trigger] row_has(self.urow@[before.steps() as int]@, j) ==> j != pc
                    && !before.active.col_gone@[j],
        ensures
            self.wf(n),
    {
        let k = before.steps() as int;
        assert(before.pos@[pr as int] == usize::MAX);
        assert forall|s: int| 0 <= s < k + 1 implies (#[trigger] self.pivot_row@[s]) < n
            && self.pos@[self.pivot_row@[s] as int] == s by {
            if s < k {
                assert(self.pivot_row@[s] == before.pivot_row@[s]);
            }
        }
        assert forall|i: int| 0 <= i < n && #[trigger] self.pos@[i] != usize::MAX implies self.pos@[i]
            < k + 1 && self.pivot_row@[self.pos@[i] as int] == i by {
            if i != pr {
                assert(self.pos@[i] == before.pos@[i]);
            }
        }
        assert forall|i: int| 0 <= i < n implies (#[trigger] self.active.row_gone@[i]
            <==> self.pos@[i] != usize::MAX) by {
            if i != pr {
                assert(self.active.row_gone@[i] == before.active.row_gone@[i]);
            }
        }
        assert forall|s: int| 0 <= s < k + 1 implies (#[trigger] self.perm@[s]) < n by {
            if s < k {
                assert(self.perm@[s] == before.perm@[s]);
            }
        }
        assert forall|s: int, t: int| 0 <= s < t < k + 1 implies #[trigger] self.perm@[s]
            != #[trigger] self.perm@[t] by {
            assert(self.perm@[s] == before.perm@[s]);
            if t < k {
                assert(self.perm@[t] == before.perm@[t]);
            } else if self.perm@[s] == pc {
                assert(before.perm@[s] == pc as int);
                assert(image(before.perm@, k as nat, pc as int));
            }
        }
        assert forall|j: int| 0 <= j < n implies (#[trigger] self.active.col_gone@[j] <==> image(
            self.perm@,
            (k + 1) as nat,
            j,
        )) by {
            if image(self.perm@, (k + 1) as nat, j) {
                let s = choose|s: int| 0 <= s < k + 1 && #[trigger] self.perm@[s] == j;
                if s < k {
                    assert(before.perm@[s] == j);
                    assert(before.active.col_gone@[j]);
                }
            }
            if j == pc {
                assert(self.perm@[k] == j);
            } else if self.active.col_gone@[j] {
                assert(before.active.col_gone@[j]);
                let s = choose|s: int| 0 <= s < k && #[trigger] before.perm@[s] == j;
                assert(self.perm@[s] == j);
            }
        }
        assert(forward_only(self.l@, self.pos@)) by {
            assert forall|s: int, p: int|
                0 <= s < self.l@.len() && 0 <= p < self.l@[s]@.len() implies (
            #[trigger] self.l@[s]@[p]).0 < self.pos@.len() && self.pos@[self.l@[s]@[p].0 as int]
                > s by {
                let r = self.l@[s]@[p].0;
                if s < k {
                    assert(self.l@[s] == before.l@[s]);
                    assert(before.l@[s]@[p].0 < n);
                } else {
                    lemma_distinct_pos(self.l@[k]@, p);
                    assert(row_has(self.l@[k]@, r as int));
                    assert(self.pos@[r as int] == usize::MAX);
                }
            }
        }
        assert forall|s: int| 0 <= s < k + 1 implies distinct(#[trigger] self.l@[s]@) by {
            if s < k {
                assert(self.l@[s] == before.l@[s]);
            }
        }
        assert forall|s: int| 0 <= s < k + 1 implies increasing(#[trigger] self.urow@[s]@)
            && columns_below(self.urow@[s]@, n as int) by {
            if s < k {
                assert(self.urow@[s] == before.urow@[s]);
            }
        }
        assert forall|s: int, t: int| 0 <= t <= s < k + 1 implies !(#[trigger] row_has(
            (#[trigger] self.urow@[s])@,
            self.perm@[t] as int,
        )) by {
            if s < k {
                assert(self.urow@[s] == before.urow@[s]);
                assert(self.perm@[t] == before.perm@[t]);
                assert(!row_has(before.urow@[s]@, before.perm@[t] as int));
            } else if t < k {
                assert(self.perm@[t] == before.perm@[t]);
                assert(before.active.col_gone@[before.perm@[t] as int]);
            }
        }
        assert forall|s: int| 0 <= s < k + 1 implies usable(#[trigger] self.diag@[s]) by {
            if s < k {
                assert(self.diag@[s] == before.diag@[s]);
            }
        }
        assert(S::exact() ==> forall|s: int|
            0 <= s < k + 1 ==> #[trigger] self.diag@[s] != S::spec_zero()) by {
            if S::exact() {
                assert forall|s: int| 0 <= s < k + 1 implies #[trigger] self.diag@[s]
                    != S::spec_zero() by {
                    if s < k {
                        assert(self.diag@[s] == before.diag@[s]);
                    }
                }
            }
        }
    }

    /// The first row and the first column that are still live.
    fn first_live(&self, n: usize) -> (r: (usize, usize))
        requires
            self.wf(n as nat),
            self.steps() < n,
        ensures
            r.0 < n,
            r.1 < n,
            !self.active.row_gone@[r.0 as int],
            !self.active.col_gone@[r.1 as int],
            forall|i: int| 0 <= i < r.0 ==> #[trigger] self.active.row_gone@[i],
            forall|j: int| 0 <= j < r.1 ==> #[trigger] self.active.col_gone@[j],
    {
        let k: usize = self.perm.len();
        let mut pr: usize = 0;
        while pr < n && self.active.row_gone[pr]
            invariant
                pr <= n,
                self.wf(n as nat),
                forall|i: int| 0 <= i < pr ==> #[trigger] self.active.row_gone@[i],
            decreases n - pr,
        {
            pr = pr + 1;
        }
        let mut pc: usize = 0;
        while pc < n && self.active.col_gone[pc]
            invariant
                pc <= n,
                self.wf(n as nat),
                forall|j: int| 0 <= j < pc ==> #[trigger] self.active.col_gone@[j],
            decreases n - pc,
        {
            pc = pc + 1;
        }
        proof {
            if pr == n {
                let f = |i: int| self.pos@[i] as int;
                assert forall|i: int| 0 <= i < n implies 0 <= #[trigger] f(i) < k
                    && self.pivot_row@[f(i)] == i by {
                    assert(self.active.row_gone@[i]);
                }
                lemma_cover(self.pivot_row@, n as nat, f);
            }
            if pc == n {
                let f = |j: int| choose|s: int| 0 <= s < k && #[trigger] self.perm@[s] == j;
                assert forall|j: int| 0 <= j < n implies 0 <= #[trigger] f(j) < k
                    && self.perm@[f(j)] == j by {
                    assert(self.active.col_gone@[j]);
                }
                lemma_cover(self.perm@, n as nat, f);
            }
        }
        (pr, pc)
    }

    /// One step. `true` when a usable pivot was found, `false` when a floating
    /// unknown was anchored.
    fn step(&mut self, n: usize) -> (pivoted: bool)
        requires
            old(self).wf(n as nat),
            old(self).steps() < n,
        ensures
            final(self).wf(n as nat),
            final(self).extends(old(self)),
            final(self).trail() == old(self).trail().next(n as nat),
            pivoted == best_pivot(old(self).active@, n as nat) is Some,
            S::exact() && pivoted ==> forall|m: &SparseMatrix<S>|
                m.spec_dim() == n && #[trigger] old(self).accounts(m, old(self).steps())
                    ==> final(self).accounts(m, final(self).steps()),
            S::exact() && !pivoted ==> forall|m: &SparseMatrix<S>, rank: nat|
                m.spec_dim() == n && #[trigger] old(self).accounts(m, rank)
                    ==> final(self).accounts(m, rank),
            S::exact() && pivoted ==> exists|i: int, j: int|
                0 <= i < n && 0 <= j < n && #[trigger] old(self).active.left(i, j)
                    != S::spec_zero(),
    {
        let ghost before = *self;
        let k: usize = self.perm.len();
        match self.active.search(n) {
            Some((pr, pc)) => {
                assert(increasing(self.active.row@[pr as int]@));
                let pivot: S = match find_col(&self.active.row[pr], pc) {
                    Ok(q) => self.active.row[pr][q].1,
                    Err(_) => S::zero(),
                };
                assert(pivot == row_value(before.active.row@[pr as int]@, pc as int));
                proof {
                    let q = row_pos(before.active.row@[pr as int]@, pc as int);
                    assert(!before.active.row@[pr as int]@[q].1.spec_is_zero());
                    if S::exact() {
                        S::laws(pivot, pivot, pivot);
                        assert(before.active.left(pr as int, pc as int) != S::spec_zero());
                    }
                }
                let (lcol, urow) = eliminate_pivot(&mut self.active, n, pr, pc);
                assert(distinct(lcol@));
                self.record(n, pr, pc, pivot, lcol, urow);
                proof {
                    assert(self.extends(&before));
                    self.lemma_extended_wf(&before, n as nat, pr, pc);
                    if S::exact() {
                        assert forall|m: &SparseMatrix<S>|
                            m.spec_dim() == n && #[trigger] before.accounts(
                                m,
                                before.steps(),
                            ) implies self.accounts(m, self.steps()) by {
                            assert forall|i: int, j: int| 0 <= i < n && 0 <= j < n implies sum(
                                self.steps(),
                                self.terms(i, j),
                            ).spec_plus(#[trigger] self.active.left(i, j)) == self.anchored(
                                m,
                                self.steps(),
                                i,
                                j,
                            ) by {
                                self.lemma_pivot_accounts(&before, m, n as nat, pr, pc, i, j);
                            }
                        }
                    }
                }
                true
            },
            None => {
                let (pr, pc) = self.first_live(n);
                self.active.row_gone.set(pr, true);
                self.active.col_gone.set(pc, true);
                let one: S = S::from_int(1);
                proof {
                    lemma_first_unset(before.active.row_gone@, 0, pr as int);
                    lemma_first_unset(before.active.col_gone@, 0, pc as int);
                    let want = before.active@.without(pr, pc);
                    assert(self.active@.row_gone =~= want.row_gone);
                    assert(self.active@.col_gone =~= want.col_gone);
                }
                let none: Vec<(usize, S)> = Vec::new();
                let nothing: Vec<(usize, S)> = Vec::new();
                assert(none@ =~= Seq::empty());
                assert(nothing@ =~= Seq::empty());
                self.record(n, pr, pc, one, none, nothing);
                proof {
                    assert(self.extends(&before));
                    if S::exact() {
                        S::laws(one, one, one);
                    }
                    self.lemma_extended_wf(&before, n as nat, pr, pc);
                    if S::exact() {
                        assert forall|m: &SparseMatrix<S>, rank: nat|
                            m.spec_dim() == n && #[trigger] before.accounts(
                                m,
                                rank,
                            ) implies self.accounts(m, rank) by {
                            self.lemma_anchor_accounts(&before, m, n as nat, rank);
                        }
                    }
                }
                false
            },
        }
    }

    proof fn lemma_anchor_accounts(
        &self,
        before: &Self,
        m: &SparseMatrix<S>,
        n: nat,
        rank: nat,
    )
        requires
            S::exact(),
            before.wf(n),
            self.wf(n),
            m.spec_dim() == n,
            before.accounts(m, rank),
            self.extends(before),
            forall|i: int, j: int|
                0 <= i < n && 0 <= j < n ==> #[trigger] before.active.left(i, j)
                    == S::spec_zero(),
            self.active.row@ == before.active.row@,
            self.active.row_gone@ == before.active.row_gone@.update(
                self.pivot_row@[before.steps() as int] as int,
                true,
            ),
            self.active.col_gone@ == before.active.col_gone@.update(
                self.perm@[before.steps() as int] as int,
                true,
            ),
            self.diag@[before.steps() as int] == S::spec_int(1),
            self.l@[before.steps() as int]@.len() == 0,
            self.urow@[before.steps() as int]@.len() == 0,
        ensures
            self.accounts(m, rank),
    {
        let k = before.steps() as int;
        let zero = S::spec_zero();
        let one = S::spec_int(1);
        assert forall|s: int| rank <= s < self.steps() implies #[trigger] self.unit_step(s) by {
            if s < k {
                assert(before.unit_step(s));
                assert(self.l@[s] == before.l@[s]);
                assert(self.urow@[s] == before.urow@[s]);
                assert(self.diag@[s] == before.diag@[s]);
            }
        }
        assert forall|i: int, j: int| 0 <= i < n && 0 <= j < n implies #[trigger] self.active.left(
            i,
            j,
        ) == zero by {
            assert(before.active.left(i, j) == zero);
        }
        assert forall|i: int, j: int| 0 <= i < n && 0 <= j < n implies sum(
            self.steps(),
            self.terms(i, j),
        ).spec_plus(#[trigger] self.active.left(i, j)) == self.anchored(m, rank, i, j) by {
            assert(before.active.left(i, j) == zero);
            assert(self.active.left(i, j) == zero);
            self.lemma_terms_kept(before, i, j);
            self.lemma_anchors_kept(before, rank, i, j);
            let head = sum(before.steps(), before.terms(i, j));
            let last = self.lower(i, k).spec_times(self.upper(k, j));
            assert(self.terms(i, j)(k) == last);
            assert(sum(self.steps(), self.terms(i, j)) == head.spec_plus(last));
            S::laws(head, zero, zero);
            assert(head == before.anchored(m, rank, i, j));
            S::laws(head.spec_plus(last), zero, zero);
            if self.pivots_on(k, i, j) {
                S::laws(one, one, one);
                assert(last == one);
                assert(self.anchors(rank, i, j));
                // The row of this pivot was live, so nothing anchored it before.
                if before.anchors(rank, i, j) {
                    let s = choose|s: int|
                        rank <= s < before.steps() && #[trigger] before.pivots_on(s, i, j);
                    assert(self.perm@[s] == before.perm@[s]);
                    assert(self.perm@[s] != self.perm@[k]);
                }
            } else {
                assert(last == zero) by {
                    if self.pivot_row@[k] != i {
                        assert(self.lower(i, k) == zero);
                        S::laws(zero, self.upper(k, j), zero);
                        S::laws(self.upper(k, j), zero, zero);
                    } else {
                        assert(self.upper(k, j) == zero);
                        S::laws(self.lower(i, k), zero, zero);
                    }
                }
                S::laws(head, zero, zero);
            }
        }
    }

    /// Factor `m` completely.
    pub fn run(m: &SparseMatrix<S>) -> (d: Self)
        requires
            m.wf(),
        ensures
            d.wf(m.spec_dim()),
            d.steps() == m.spec_dim(),
            d.trail() == dynamic(m),
            S::exact() ==> exists|rank: nat| #[trigger] d.accounts(m, rank),
    {
        let n: usize = m.dim();
        let mut d: Dynamic<S> = Dynamic::start(m);
        let ghost mut rank: nat = 0;
        let mut k: usize = 0;
        while k < n
            invariant
                k <= n,
                n == m.spec_dim(),
                d.wf(n as nat),
                d.steps() == k,
                d.trail() == trail(m, k as nat),
                S::exact() ==> d.accounts(m, rank),
            decreases n - k,
        {
            let ghost before = d;
            let pivoted: bool = d.step(n);
            proof {
                if S::exact() && pivoted {
                    let (i, j) = choose|i: int, j: int|
                        0 <= i < n && 0 <= j < n && #[trigger] before.active.left(i, j)
                            != S::spec_zero();
                    assert(rank == before.steps());
                    rank = (k + 1) as nat;
                }
            }
            k = k + 1;
        }
        proof {
            if S::exact() {
                assert(d.accounts(m, rank));
            }
        }
        d
    }

    /// U by step: column `t` of U holds, for each earlier step, what that step's
    /// row holds at the column eliminated at step `t`.
    fn upper_columns(&self, n: usize) -> (u: Vec<Vec<(usize, S)>>)
        requires
            self.wf(n as nat),
            self.steps() == n,
        ensures
            is_upper(columns(u@), n as nat),
            forall|s: int, t: int|
                0 <= s < t < n ==> #[trigger] row_value(columns(u@)[t], s) == row_value(
                    self.urow@[s]@,
                    self.perm@[t] as int,
                ),
            forall|s: int, t: int|
                0 <= s < t < n ==> #[trigger] row_has(columns(u@)[t], s) == row_has(
                    self.urow@[s]@,
                    self.perm@[t] as int,
                ),
            columns(u@) == self.trail().stage().u,
    {
        let mut u: Vec<Vec<(usize, S)>> = Vec::new();
        let mut t: usize = 0;
        while t < n
            invariant
                t <= n,
                self.wf(n as nat),
                self.steps() == n,
                u@.len() == t,
                forall|r: int|
                    0 <= r < t ==> (#[trigger] u@[r])@ == self.trail().upper_column(r, r as nat),
                forall|r: int|
                    0 <= r < t ==> distinct(#[trigger] u@[r]@) && columns_below(u@[r]@, r),
                forall|s: int, r: int|
                    0 <= s < r < t ==> #[trigger] row_value(u@[r]@, s) == row_value(
                        self.urow@[s]@,
                        self.perm@[r] as int,
                    ),
                forall|s: int, r: int|
                    0 <= s < r < t ==> #[trigger] row_has(u@[r]@, s) == row_has(
                        self.urow@[s]@,
                        self.perm@[r] as int,
                    ),
            decreases n - t,
        {
            let c: usize = self.perm[t];
            let mut col: Vec<(usize, S)> = Vec::new();
            let mut s: usize = 0;
            while s < t
                invariant
                    s <= t,
                    t < n,
                    self.wf(n as nat),
                    self.steps() == n,
                    c == self.perm@[t as int],
                    distinct(col@),
                    columns_below(col@, s as int),
                    col@ == self.trail().upper_column(t as int, s as nat),
                    forall|r: int|
                        0 <= r < s ==> #[trigger] row_value(col@, r) == row_value(
                            self.urow@[r]@,
                            c as int,
                        ),
                    forall|r: int|
                        0 <= r < s ==> #[trigger] row_has(col@, r) == row_has(
                            self.urow@[r]@,
                            c as int,
                        ),
                decreases t - s,
            {
                let ghost col1 = col@;
                assert(increasing(self.urow@[s as int]@));
                proof {
                    assert(!row_has(col@, s as int)) by {
                        if row_has(col@, s as int) {
                            assert(col@[row_pos(col@, s as int)].0 < s);
                        }
                    }
                }
                match find_col(&self.urow[s], c) {
                    Ok(q) => {
                        let v: S = self.urow[s][q].1;
                        proof {
                            lemma_distinct_push(col@, s, v);
                        }
                        col.push((s, v));
                    },
                    Err(_) => {},
                }
                proof {
                    assert forall|r: int| 0 <= r < s + 1 implies #[trigger] row_value(col@, r)
                        == row_value(self.urow@[r]@, c as int) by {
                        if r < s {
                            assert(row_value(col1, r) == row_value(col@, r));
                        }
                    }
                    assert forall|r: int| 0 <= r < s + 1 implies #[trigger] row_has(col@, r)
                        == row_has(self.urow@[r]@, c as int) by {
                        if r < s {
                            assert(row_has(col1, r) == row_has(self.urow@[r]@, c as int));
                            if row_has(col1, r) {
                                assert(col@[row_pos(col1, r)] == col1[row_pos(col1, r)]);
                            }
                            if row_has(col@, r) {
                                assert(col1[row_pos(col@, r)] == col@[row_pos(col@, r)]);
                            }
                        } else if row_has(self.urow@[r]@, c as int) {
                            assert(col@[col@.len() - 1].0 == s);
                        }
                    }
                }
                s = s + 1;
            }
            let ghost u1 = u@;
            u.push(col);
            proof {
                assert forall|s: int, r: int| 0 <= s < r < t + 1 implies #[trigger] row_value(
                    u@[r]@,
                    s,
                ) == row_value(self.urow@[s]@, self.perm@[r] as int) by {
                    if r < t {
                        assert(u@[r] == u1[r]);
                    }
                }
                assert forall|s: int, r: int| 0 <= s < r < t + 1 implies #[trigger] row_has(
                    u@[r]@,
                    s,
                ) == row_has(self.urow@[s]@, self.perm@[r] as int) by {
                    if r < t {
                        assert(u@[r] == u1[r]);
                        assert(row_has(u1[r]@, s) == row_has(
                            self.urow@[s]@,
                            self.perm@[r] as int,
                        ));
                    }
                }
            }
            t = t + 1;
        }
        proof {
            assert(columns(u@) =~= self.trail().stage().u);
            assert forall|t: int| 0 <= t < n implies distinct(#[trigger] columns(u@)[t])
                && columns_below(columns(u@)[t], t) by {
                assert(columns(u@)[t] == u@[t]@);
            }
            assert forall|s: int, t: int| 0 <= s < t < n implies #[trigger] row_value(
                columns(u@)[t],
                s,
            ) == row_value(self.urow@[s]@, self.perm@[t] as int) by {
                assert(columns(u@)[t] == u@[t]@);
            }
            assert forall|s: int, t: int| 0 <= s < t < n implies #[trigger] row_has(
                columns(u@)[t],
                s,
            ) == row_has(self.urow@[s]@, self.perm@[t] as int) by {
                assert(columns(u@)[t] == u@[t]@);
                assert(row_has(u@[t]@, s) == row_has(self.urow@[s]@, self.perm@[t] as int));
            }
        }
        u
    }

    /// The factors by step and original row, with the column order.
    pub fn finish(self, n: usize) -> (r: (Partial<S>, Vec<usize>))
        requires
            self.wf(n as nat),
            self.steps() == n,
        ensures
            r.0.wf(n as nat),
            r.0.steps() == n,
            is_permutation(r.1@, n as nat),
            r.1@ == self.perm@,
            r.0.pivot_row@ == self.pivot_row@,
            r.0.diag@ == self.diag@,
            r.0.l@ == self.l@,
            is_upper(columns(r.0.u@), n as nat),
            forall|s: int, t: int|
                0 <= s < t < n ==> #[trigger] row_value(columns(r.0.u@)[t], s) == row_value(
                    self.urow@[s]@,
                    self.perm@[t] as int,
                ),
            forall|s: int, t: int|
                0 <= s < t < n ==> #[trigger] row_has(columns(r.0.u@)[t], s) == row_has(
                    self.urow@[s]@,
                    self.perm@[t] as int,
                ),
            r.0.stage() == self.trail().stage(),
    {
        let u: Vec<Vec<(usize, S)>> = self.upper_columns(n);
        proof {
            assert forall|t: int| 0 <= t < n implies distinct(#[trigger] u@[t]@) && columns_below(
                u@[t]@,
                t,
            ) by {
                assert(columns(u@)[t] == u@[t]@);
            }
        }
        let p = Partial { pos: self.pos, pivot_row: self.pivot_row, diag: self.diag, l: self.l, u };
        (p, self.perm)
    }
}

/// To cover `n` places takes at least `n` values.
proof fn lemma_cover(p: Seq<usize>, n: nat, f: spec_fn(int) -> int)
    requires
        forall|i: int| 0 <= i < n ==> 0 <= #[trigger] f(i) < p.len() && p[f(i)] == i,
    ensures
        n <= p.len(),
{
    let s = Seq::new(n, |i: int| f(i));
    let all = vstd::set_lib::set_int_range(0, p.len() as int);
    vstd::set_lib::lemma_int_range(0, p.len() as int);
    assert(s.no_duplicates()) by {
        assert forall|i: int, j: int| 0 <= i < s.len() && 0 <= j < s.len() && i != j implies s[i]
            != s[j] by {
            assert(p[f(i)] == i && p[f(j)] == j);
        }
    }
    s.unique_seq_to_set();
    assert(s.to_set().subset_of(all)) by {
        assert forall|x: int| s.to_set().contains(x) implies all.contains(x) by {
            let i = choose|i: int| 0 <= i < s.len() && s[i] == x;
            assert(0 <= f(i) < p.len());
        }
    }
    vstd::set_lib::lemma_len_subset(s.to_set(), all);
}

} // verus!
