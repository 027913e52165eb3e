//! Reusable factorization state: a frozen column order and the factors of the
//! last refactorization.
use vstd::prelude::*;

use crate::scalar::Scalar;
use crate::sparse::algebra::{
    image, is_permutation, lemma_permutation_onto, lemma_sum_ext, lemma_sum_reindex,
    lemma_sum_scale, lemma_sum_swap, lemma_sum_tail, sum,
};
use crate::sparse::column::{
    column_upto, columns_of, distinct, lemma_distinct_pos, to_columns,
};
use crate::sparse::factor::Partial;
use crate::sparse::frozen::{frozen, lemma_stage_ends, stage, stepped, Stage};
use crate::sparse::markowitz::{usable, Dynamic};
use crate::sparse::pivoting::dynamic;
use crate::sparse::matrix::{
    columns_below, row_has, row_pos, row_value, SparseMatrix,
};
use crate::sparse::solve::law_factored_is_regular;
use crate::sparse::order::{adjacency, build_adjacency, elimination_order, min_degree_order};
use crate::sparse::triangular::{
    backward, columns, forward, is_lower, is_upper, lemma_backward, lemma_backward_len, lower_at,
    solve_lower, solve_upper, upper_at,
};

verus! {

/// The row of `m` times the vector `x`.
pub open spec fn row_times<S: Scalar>(m: &SparseMatrix<S>, i: int, x: Seq<S>) -> S {
    sum(m.spec_dim(), |j: int| m.value(i, j).spec_times(x[j]))
}

/// `m x == b`.
pub open spec fn solves<S: Scalar>(m: &SparseMatrix<S>, x: Seq<S>, b: Seq<S>) -> bool {
    forall|i: int| 0 <= i < m.spec_dim() ==> #[trigger] row_times(m, i, x) == b[i]
}

/// A nonzero vector that `m` sends to zero.
pub open spec fn kernel<S: Scalar>(m: &SparseMatrix<S>, x: Seq<S>) -> bool {
    &&& x.len() == m.spec_dim()
    &&& exists|j: int| 0 <= j < x.len() && #[trigger] x[j] != S::spec_zero()
    &&& forall|i: int| 0 <= i < m.spec_dim() ==> #[trigger] row_times(m, i, x) == S::spec_zero()
}

/// The columns of `m` are linearly dependent.
pub open spec fn singular<S: Scalar>(m: &SparseMatrix<S>) -> bool {
    exists|x: Seq<S>| #[trigger] kernel(m, x)
}

/// Frozen column order plus the factors of the last refactorization: `L U` is the
/// matrix with its rows taken in pivot order and its columns in elimination
/// order.
#[derive(Debug, Clone)]
pub struct Symbolic<S> {
    pub(crate) n: usize,
    pub(crate) perm: Vec<usize>,
    pub(crate) pivot_row: Vec<usize>,
    pub(crate) row_pos: Vec<usize>,
    pub(crate) diag: Vec<S>,
    pub(crate) l: Vec<Vec<(usize, S)>>,
    pub(crate) u: Vec<Vec<(usize, S)>>,
    pub(crate) allow_dynamic: bool,
}

impl<S: Scalar> Symbolic<S> {
    /// The dimension.
    pub closed spec fn spec_dim(&self) -> nat {
        self.n as nat
    }

    /// `spec_perm()[k]` is the column eliminated at step `k`.
    pub closed spec fn spec_perm(&self) -> Seq<usize> {
        self.perm@
    }

    /// `spec_pivot_row()[k]` is the row pivoted on at step `k`.
    pub closed spec fn spec_pivot_row(&self) -> Seq<usize> {
        self.pivot_row@
    }

    /// L below its unit diagonal, by step.
    pub closed spec fn spec_l(&self) -> Seq<Seq<(usize, S)>> {
        columns(self.l@)
    }

    /// U above its diagonal, by step.
    pub closed spec fn spec_u(&self) -> Seq<Seq<(usize, S)>> {
        columns(self.u@)
    }

    /// The pivots, by step.
    pub closed spec fn spec_diag(&self) -> Seq<S> {
        self.diag@
    }

    /// Whether the dynamic fallback is enabled.
    pub closed spec fn spec_allow_dynamic(&self) -> bool {
        self.allow_dynamic
    }

    /// The column order lists every column once.
    pub open spec fn wf(&self) -> bool {
        is_permutation(self.spec_perm(), self.spec_dim())
    }

    /// Factors are present.
    pub open spec fn ready(&self) -> bool {
        let n = self.spec_dim();
        &&& self.wf()
        &&& is_permutation(self.spec_pivot_row(), n)
        &&& is_lower(self.spec_l(), n)
        &&& is_upper(self.spec_u(), n)
        &&& self.spec_diag().len() == n
    }

    /// `(L U)(i, t)`.
    pub open spec fn product(&self, i: int, t: int) -> S {
        sum(
            self.spec_dim(),
            |s: int|
                lower_at(self.spec_l(), i, s).spec_times(
                    upper_at(self.spec_u(), self.spec_diag(), s, t),
                ),
        )
    }

    /// The pivots are usable and `L U` is `m` in pivot-row and column order.
    pub open spec fn factors(&self, m: &SparseMatrix<S>) -> bool {
        let n = self.spec_dim();
        &&& self.ready()
        &&& m.spec_dim() == n
        &&& forall|t: int| 0 <= t < n ==> #[trigger] self.spec_diag()[t] != S::spec_zero()
        &&& forall|i: int, t: int|
            0 <= i < n && 0 <= t < n ==> m.value(
                self.spec_pivot_row()[i] as int,
                self.spec_perm()[t] as int,
            ) == #[trigger] self.product(i, t)
    }

    /// The factors are those of the stage, L by steps.
    pub open spec fn holds(&self, s: Stage<S>) -> bool {
        &&& self.spec_pivot_row() == s.pivot_row
        &&& self.spec_diag() == s.diag
        &&& self.spec_u() == s.u
        &&& self.spec_l() == Seq::new(s.l.len(), |t: int| stepped(s.l[t], s.pos))
    }

    /// The permuted right-hand side.
    pub open spec fn permuted(&self, b: Seq<S>) -> Seq<S> {
        Seq::new(self.spec_dim(), |k: int| b[self.spec_pivot_row()[k] as int])
    }

    /// The solution in elimination order: both triangular sweeps on the permuted
    /// right-hand side.
    pub open spec fn swept(&self, b: Seq<S>) -> Seq<S> {
        backward(
            self.spec_u(),
            self.spec_diag(),
            forward(self.spec_l(), self.permuted(b), self.spec_dim()),
            0,
        )
    }

    /// Step `s` is an anchor: a unit pivot, and nothing else in its column of L and
    /// its row of U.
    pub open spec fn unit_step(&self, s: int) -> bool {
        &&& self.spec_diag()[s] == S::spec_int(1)
        &&& self.spec_l()[s].len() == 0
        &&& forall|t: int| s < t < self.spec_dim() ==> !row_has(#[trigger] self.spec_u()[t], s)
    }

    /// `L U` is `m` in pivot-row and column order, with a unit added on the
    /// diagonal from step `rank` on; these steps are anchors, every pivot is other
    /// than zero, and there are anchors just where the matrix is singular.
    pub open spec fn anchors(&self, m: &SparseMatrix<S>, rank: nat) -> bool {
        let n = self.spec_dim();
        &&& rank <= n
        &&& rank < n <==> singular(m)
        &&& forall|s: int| 0 <= s < n ==> #[trigger] self.spec_diag()[s] != S::spec_zero()
        &&& forall|s: int| rank <= s < n ==> #[trigger] self.unit_step(s)
        &&& forall|i: int, t: int|
            0 <= i < n && 0 <= t < n ==> #[trigger] self.product(i, t) == {
                let a = m.value(self.spec_pivot_row()[i] as int, self.spec_perm()[t] as int);
                if i == t && i >= rank {
                    a.spec_plus(S::spec_int(1))
                } else {
                    a
                }
            }
    }

    /// Analyze a matrix: freeze its minimum-degree column order.
    pub fn analyze(m: &SparseMatrix<S>) -> (r: Symbolic<S>)
        requires
            m.wf(),
        ensures
            r.wf(),
            r.spec_dim() == m.spec_dim(),
            r.spec_perm() == elimination_order(adjacency(m)),
            !r.spec_allow_dynamic(),
    {
        let adj: Vec<Vec<usize>> = build_adjacency(m);
        let perm: Vec<usize> = min_degree_order(&adj);
        Symbolic {
            n: m.dim(),
            perm,
            pivot_row: Vec::new(),
            row_pos: Vec::new(),
            diag: Vec::new(),
            l: Vec::new(),
            u: Vec::new(),
            allow_dynamic: false,
        }
    }

    /// Enable or disable the dynamic-pivot fallback.
    pub fn set_allow_dynamic(&mut self, allow: bool)
        ensures
            final(self).spec_allow_dynamic() == allow,
            final(self).spec_dim() == old(self).spec_dim(),
            final(self).spec_perm() == old(self).spec_perm(),
            final(self).spec_pivot_row() == old(self).spec_pivot_row(),
            final(self).spec_l() == old(self).spec_l(),
            final(self).spec_u() == old(self).spec_u(),
            final(self).spec_diag() == old(self).spec_diag(),
    {
        self.allow_dynamic = allow;
    }

    /// The column order: entry `k` is the column eliminated at step `k`.
    pub fn order(&self) -> (r: &[usize])
        ensures
            r@ == self.spec_perm(),
    {
        self.perm.as_slice()
    }

    /// Whether the dynamic-pivot fallback is enabled.
    pub fn allow_dynamic(&self) -> (r: bool)
        ensures
            r == self.spec_allow_dynamic(),
    {
        self.allow_dynamic
    }

    /// Recompute the factors of `m` in the frozen column order with partial
    /// pivoting: in every column the first row of the largest magnitude. `false` if
    /// some column has no usable pivot, and the factors stay as they were.
    pub fn refactor_frozen(&mut self, m: &SparseMatrix<S>) -> (ok: bool)
        requires
            old(self).wf(),
            m.wf(),
            m.spec_dim() == old(self).spec_dim(),
        ensures
            final(self).wf(),
            final(self).spec_dim() == old(self).spec_dim(),
            final(self).spec_perm() == old(self).spec_perm(),
            final(self).spec_allow_dynamic() == old(self).spec_allow_dynamic(),
            ok ==> final(self).ready(),
            match frozen(m, old(self).spec_perm()) {
                Some(s) => ok && final(self).holds(s),
                None => !ok && *final(self) == *old(self),
            },
            S::exact() && ok ==> final(self).factors(m),
            S::exact() && !ok ==> singular(m),
    {
        let n: usize = self.n;
        let cols: Vec<Vec<(usize, S)>> = to_columns(m);
        let mut p: Partial<S> = Partial::start(n);
        let mut x: Vec<S> = Vec::new();
        let mut marked: Vec<bool> = Vec::new();
        let mut reach: Vec<usize> = Vec::new();
        let mut i: usize = 0;
        while i < n
            invariant
                i <= n,
                x@.len() == i,
                marked@.len() == i,
                forall|j: int| 0 <= j < i ==> !#[trigger] marked@[j],
                forall|j: int| 0 <= j < i ==> #[trigger] x@[j] == S::spec_zero(),
            decreases n - i,
        {
            x.push(S::zero());
            marked.push(false);
            i = i + 1;
        }
        let mut k: usize = 0;
        while k < n
            invariant
                k <= n,
                n == self.n,
                self.wf(),
                self.spec_dim() == old(self).spec_dim(),
                self.spec_perm() == old(self).spec_perm(),
                self.spec_allow_dynamic() == old(self).spec_allow_dynamic(),
                m.wf(),
                m.spec_dim() == n,
                columns_of(cols@, m),
                p.wf(n as nat),
                p.steps() == k,
                x@.len() == n,
                marked@.len() == n,
                reach@.len() == 0,
                forall|j: int| 0 <= j < n ==> !#[trigger] marked@[j],
                forall|j: int| 0 <= j < n ==> #[trigger] x@[j] == S::spec_zero(),
                *self == *old(self),
                forall|j: int|
                    0 <= j < cols@.len() ==> (#[trigger] cols@[j])@ == column_upto(m, j, n as nat),
                stage(m, self.perm@, k as nat) == Some(p.stage()),
                S::exact() ==> p.reproduces(m, self.perm@),
            decreases n - k,
        {
            let ghost before = p;
            let col: usize = self.perm[k];
            let ok: bool = p.advance(&cols[col], &mut x, &mut marked, &mut reach);
            if !ok {
                proof {
                    lemma_stage_ends(m, self.perm@, (k + 1) as nat, n as nat);
                    if S::exact() {
                        let c = choose|c: Seq<S>| #[trigger] before.spans(cols@[col as int]@, c);
                        lemma_no_pivot_singular(&before, m, self.perm@, cols@[col as int]@, c);
                    }
                }
                return false;
            }
            proof {
                if S::exact() {
                    lemma_reproduces_more(&before, &p, m, self.perm@, cols@[col as int]@);
                }
            }
            k = k + 1;
        }
        proof {
            assert(is_permutation(p.pivot_row@, n as nat)) by {
                assert forall|a: int, b: int|
                    0 <= a < n && 0 <= b < n && p.pivot_row@[a] == p.pivot_row@[b] implies a
                    == b by {
                    assert(p.pos@[p.pivot_row@[a] as int] == a);
                    assert(p.pos@[p.pivot_row@[b] as int] == b);
                }
            }
        }
        let l: Vec<Vec<(usize, S)>> = to_steps(&p, n);
        let ghost s = p.stage();
        proof {
            lemma_upper_columns(&p, n as nat);
        }
        self.row_pos = p.pos;
        self.pivot_row = p.pivot_row;
        self.diag = p.diag;
        self.u = p.u;
        self.l = l;
        proof {
            assert(self.spec_l() =~= Seq::new(s.l.len(), |t: int| stepped(s.l[t], s.pos)));
            if S::exact() {
                assert forall|i: int, t: int| 0 <= i < n && 0 <= t < n implies m.value(
                    self.spec_pivot_row()[i] as int,
                    self.spec_perm()[t] as int,
                ) == #[trigger] self.product(i, t) by {
                    lemma_product(&p, self, m, i, t);
                }
            }
        }
        true
    }
}

impl<S: Scalar> Symbolic<S> {
    /// Factor the current values of `m`, picking both the column and the row of
    /// every pivot by the Markowitz rule; unknowns that nothing usable reaches
    /// are anchored with a unit pivot. Always succeeds.
    pub fn refactor_dynamic(&mut self, m: &SparseMatrix<S>) -> (ok: bool)
        requires
            old(self).wf(),
            m.wf(),
            m.spec_dim() == old(self).spec_dim(),
        ensures
            ok,
            final(self).ready(),
            final(self).spec_dim() == old(self).spec_dim(),
            final(self).spec_allow_dynamic() == old(self).spec_allow_dynamic(),
            final(self).holds(dynamic(m).stage()),
            final(self).spec_perm() == dynamic(m).perm,
            forall|s: int|
                0 <= s < final(self).spec_dim() ==> usable(#[trigger] final(self).spec_diag()[s]),
            S::exact() && !singular(m) ==> final(self).factors(m),
            S::exact() ==> exists|rank: nat| #[trigger] final(self).anchors(m, rank),
    {
        let n: usize = self.n;
        let d: Dynamic<S> = Dynamic::run(m);
        let ghost d0 = d;
        let (p, perm) = d.finish(n);
        proof {
            assert(is_permutation(p.pivot_row@, n as nat)) by {
                assert forall|a: int, b: int|
                    0 <= a < n && 0 <= b < n && p.pivot_row@[a] == p.pivot_row@[b] implies a
                    == b by {
                    assert(p.pos@[p.pivot_row@[a] as int] == a);
                    assert(p.pos@[p.pivot_row@[b] as int] == b);
                }
            }
        }
        let l: Vec<Vec<(usize, S)>> = to_steps(&p, n);
        let ghost s = p.stage();
        self.perm = perm;
        self.row_pos = p.pos;
        self.pivot_row = p.pivot_row;
        self.diag = p.diag;
        self.u = p.u;
        self.l = l;
        proof {
            assert(self.spec_l() =~= Seq::new(s.l.len(), |t: int| stepped(s.l[t], s.pos)));
            if S::exact() {
                let rank = choose|rank: nat| #[trigger] d0.accounts(m, rank);
                assert forall|i: int, t: int|
                    0 <= i < n && 0 <= t < n implies #[trigger] self.product(i, t)
                    == d0.anchored(
                    m,
                    rank,
                    d0.pivot_row@[i] as int,
                    d0.perm@[t] as int,
                ) by {
                    lemma_dynamic_product(&d0, self, m, rank, i, t);
                }
                if rank < n {
                    lemma_anchored_singular(&d0, self, m, rank);
                }
                assert forall|s: int| rank <= s < n implies #[trigger] self.unit_step(s) by {
                    assert(d0.unit_step(s));
                    assert(self.spec_l()[s].len() == d0.l@[s]@.len());
                    assert forall|t: int| s < t < n implies !row_has(
                        #[trigger] self.spec_u()[t],
                        s,
                    ) by {
                        assert(row_has(self.spec_u()[t], s) == row_has(
                            d0.urow@[s]@,
                            d0.perm@[t] as int,
                        ));
                        assert(!row_has(d0.urow@[s]@, d0.perm@[t] as int));
                    }
                }
                if rank == n {
                    assert forall|i: int, t: int| 0 <= i < n && 0 <= t < n implies m.value(
                        self.spec_pivot_row()[i] as int,
                        self.spec_perm()[t] as int,
                    ) == #[trigger] self.product(i, t) by {
                        lemma_anchor_diagonal(&d0, n as nat, rank, i, t);
                    }
                    assert(self.factors(m));
                    law_factored_is_regular(self, m);
                }
                assert(self.anchors(m, rank)) by {
                    assert forall|i: int, t: int|
                        0 <= i < n && 0 <= t < n implies #[trigger] self.product(i, t) == {
                        let a = m.value(
                            self.spec_pivot_row()[i] as int,
                            self.spec_perm()[t] as int,
                        );
                        if i == t && i >= rank {
                            a.spec_plus(S::spec_int(1))
                        } else {
                            a
                        }
                    } by {
                        lemma_anchor_diagonal(&d0, n as nat, rank, i, t);
                    }
                }
            }
        }
        true
    }

    /// Recompute the factors of `m`. The frozen order is tried first; where it
    /// finds no pivot and the fallback is enabled, the dynamic factorization
    /// takes over and its column order is kept for the next call.
    pub fn refactor(&mut self, m: &SparseMatrix<S>) -> (ok: bool)
        requires
            old(self).wf(),
            m.wf(),
            m.spec_dim() == old(self).spec_dim(),
        ensures
            final(self).wf(),
            final(self).spec_dim() == old(self).spec_dim(),
            final(self).spec_allow_dynamic() == old(self).spec_allow_dynamic(),
            match frozen(m, old(self).spec_perm()) {
                Some(s) => ok && final(self).holds(s) && final(self).spec_perm()
                    == old(self).spec_perm(),
                None => if old(self).spec_allow_dynamic() {
                    &&& ok
                    &&& final(self).holds(dynamic(m).stage())
                    &&& final(self).spec_perm() == dynamic(m).perm
                    &&& forall|t: int|
                        0 <= t < final(self).spec_dim() ==> usable(
                            #[trigger] final(self).spec_diag()[t],
                        )
                } else {
                    !ok && *final(self) == *old(self)
                },
            },
            ok ==> final(self).ready(),
            S::exact() && ok && singular(m) ==> exists|rank: nat| #[trigger]
                final(self).anchors(m, rank),
            S::exact() && ok && !singular(m) ==> final(self).factors(m),
            S::exact() && !old(self).spec_allow_dynamic() ==> (ok <==> !singular(m)),
            S::exact() && !singular(m) ==> ok && final(self).spec_perm() == old(self).spec_perm(),
    {
        let frozen: bool = self.refactor_frozen(m);
        if frozen {
            proof {
                if S::exact() {
                    law_factored_is_regular(self, m);
                }
            }
            return true;
        }
        if !self.allow_dynamic {
            return false;
        }
        self.refactor_dynamic(m)
    }
}

impl<S: Scalar> SparseMatrix<S> {
    /// Compute the fill-reducing column ordering. Reuse the result every step.
    pub fn factorize_symbolic(&self) -> (r: Symbolic<S>)
        requires
            self.wf(),
        ensures
            r.wf(),
            r.spec_dim() == self.spec_dim(),
            r.spec_perm() == elimination_order(adjacency(self)),
            !r.spec_allow_dynamic(),
    {
        Symbolic::analyze(self)
    }
}

proof fn lemma_dynamic_product<S: Scalar>(
    d: &Dynamic<S>,
    f: &Symbolic<S>,
    m: &SparseMatrix<S>,
    rank: nat,
    i: int,
    t: int,
)
    requires
        S::exact(),
        d.wf(f.spec_dim()),
        d.steps() == f.spec_dim(),
        m.spec_dim() == f.spec_dim(),
        d.accounts(m, rank),
        is_permutation(d.pivot_row@, f.spec_dim()),
        f.spec_pivot_row() == d.pivot_row@,
        f.spec_perm() == d.perm@,
        f.spec_diag() == d.diag@,
        forall|s: int, t: int|
            0 <= s < t < f.spec_dim() ==> #[trigger] row_value(f.spec_u()[t], s) == row_value(
                d.urow@[s]@,
                d.perm@[t] as int,
            ),
        forall|i: int, s: int|
            0 <= i < f.spec_dim() && 0 <= s < f.spec_dim() ==> #[trigger] row_value(
                f.spec_l()[s],
                i,
            ) == row_value(d.l@[s]@, d.pivot_row@[i] as int),
        0 <= i < f.spec_dim(),
        0 <= t < f.spec_dim(),
    ensures
        f.product(i, t) == d.anchored(m, rank, d.pivot_row@[i] as int, d.perm@[t] as int),
{
    let n = f.spec_dim();
    let r = d.pivot_row@[i] as int;
    let j = d.perm@[t] as int;
    let a = d.terms(r, j);
    let b = |s: int|
        lower_at(f.spec_l(), i, s).spec_times(upper_at(f.spec_u(), f.spec_diag(), s, t));
    assert forall|s: int| 0 <= s < n implies #[trigger] a(s) == b(s) by {
        assert(row_value(f.spec_l()[s], i) == row_value(d.l@[s]@, r));
        assert(d.lower(r, s) == lower_at(f.spec_l(), i, s));
        assert(d.upper(s, j) == upper_at(f.spec_u(), f.spec_diag(), s, t)) by {
            if s < t {
                assert(d.perm@[s] != d.perm@[t]);
                assert(row_value(f.spec_u()[t], s) == row_value(d.urow@[s]@, j));
            } else if s > t {
                assert(d.perm@[t] != d.perm@[s]);
                assert(!row_has(d.urow@[s]@, d.perm@[t] as int));
            }
        }
    }
    lemma_sum_ext(n, a, b);
    assert(d.active.left(r, j) == S::spec_zero()) by {
        assert(image(d.perm@, n, j));
        assert(d.active.col_gone@[j]);
    }
    S::laws(sum(n, a), S::spec_zero(), S::spec_zero());
}

proof fn lemma_anchor_diagonal<S: Scalar>(d: &Dynamic<S>, n: nat, rank: nat, i: int, t: int)
    requires
        d.wf(n),
        d.steps() == n,
        0 <= i < n,
        0 <= t < n,
    ensures
        d.anchors(rank, d.pivot_row@[i] as int, d.perm@[t] as int) <==> i == t && i >= rank,
{
    let r = d.pivot_row@[i] as int;
    let j = d.perm@[t] as int;
    if d.anchors(rank, r, j) {
        let s = choose|s: int| rank <= s < d.steps() && #[trigger] d.pivots_on(s, r, j);
        assert(d.pos@[d.pivot_row@[s] as int] == s);
        assert(d.pos@[d.pivot_row@[i] as int] == i);
        if s < t {
            assert(d.perm@[s] != d.perm@[t]);
        } else if t < s {
            assert(d.perm@[t] != d.perm@[s]);
        }
    }
    if i == t && i >= rank {
        assert(d.pivots_on(i, r, j));
    }
}

/// A matrix that needs an anchor is singular.
proof fn lemma_anchored_singular<S: Scalar>(
    d: &Dynamic<S>,
    f: &Symbolic<S>,
    m: &SparseMatrix<S>,
    rank: nat,
)
    requires
        S::exact(),
        f.ready(),
        d.wf(f.spec_dim()),
        d.steps() == f.spec_dim(),
        m.spec_dim() == f.spec_dim(),
        d.accounts(m, rank),
        rank < f.spec_dim(),
        is_permutation(d.pivot_row@, f.spec_dim()),
        f.spec_perm() == d.perm@,
        f.spec_diag() == d.diag@,
        forall|s: int, t: int|
            0 <= s < t < f.spec_dim() ==> #[trigger] row_value(f.spec_u()[t], s) == row_value(
                d.urow@[s]@,
                d.perm@[t] as int,
            ),
    ensures
        singular(m),
{
    let n = f.spec_dim();
    let zero = S::spec_zero();
    let one = S::spec_int(1);
    let perm = d.perm@;
    let u = f.spec_u().take(rank as int);
    let diag = d.diag@.take(rank as int);
    let c = Seq::new(rank, |s: int| row_value(f.spec_u()[rank as int], s));
    let low = |i: int, s: int| d.lower(i, s);
    assert(is_upper(u, rank)) by {
        assert forall|t: int| 0 <= t < rank implies distinct(#[trigger] u[t]) && columns_below(
            u[t],
            t,
        ) by {
            assert(u[t] == f.spec_u()[t]);
        }
    }
    assert forall|i: int, t: int| 0 <= i < n && 0 <= t < rank implies #[trigger] m.value(
        i,
        perm[t] as int,
    ) == sum(rank, |s: int| low(i, s).spec_times(upper_at(u, diag, s, t))) by {
        let j = perm[t] as int;
        let a = d.terms(i, j);
        let b = |s: int| low(i, s).spec_times(upper_at(u, diag, s, t));
        assert forall|s: int| 0 <= s < rank implies #[trigger] b(s) == a(s) by {
            assert(d.upper(s, j) == upper_at(u, diag, s, t)) by {
                if s < t {
                    assert(perm[s] != perm[t]);
                    assert(row_value(f.spec_u()[t], s) == row_value(d.urow@[s]@, j));
                    assert(u[t] == f.spec_u()[t]);
                } else if s > t {
                    assert(perm[t] != perm[s]);
                    assert(!row_has(d.urow@[s]@, perm[t] as int));
                }
            }
        }
        assert forall|s: int| rank <= s < n implies #[trigger] a(s) == zero by {
            assert(perm[t] != perm[s]);
            assert(!row_has(d.urow@[s]@, perm[t] as int));
            S::laws(d.lower(i, s), zero, zero);
        }
        lemma_sum_tail(rank, n, b, a);
        lemma_dynamic_total(d, m, n, rank, i, t);
        if d.anchors(rank, i, j) {
            let s = choose|s: int| rank <= s < d.steps() && #[trigger] d.pivots_on(s, i, j);
            assert(perm[t] != perm[s]);
        }
    }
    assert forall|i: int| 0 <= i < n implies #[trigger] m.value(i, perm[rank as int] as int)
        == sum(rank, |s: int| low(i, s).spec_times(c[s])) by {
        let k = rank as int;
        let j = perm[k] as int;
        let a = d.terms(i, j);
        let b = |s: int| low(i, s).spec_times(c[s]);
        let b2 = |s: int| if s < rank { b(s) } else { a(s) };
        assert forall|s: int| 0 <= s < rank implies #[trigger] b(s) == a(s) by {
            assert(perm[s] != perm[k]);
            assert(row_value(f.spec_u()[k], s) == row_value(d.urow@[s]@, j));
        }
        assert forall|s: int| rank + 1 <= s < n implies #[trigger] a(s) == zero by {
            assert(perm[k] != perm[s]);
            assert(!row_has(d.urow@[s]@, perm[k] as int));
            S::laws(d.lower(i, s), zero, zero);
        }
        lemma_sum_ext(rank, b, a);
        lemma_sum_tail((rank + 1) as nat, n, a, a);
        let last = a(k);
        assert(sum((rank + 1) as nat, a) == sum(rank, a).spec_plus(last));
        lemma_dynamic_total(d, m, n, rank, i, k);
        assert(d.unit_step(k));
        assert(d.upper(k, j) == one);
        let x = m.value(i, j);
        if d.pivot_row@[k] == i {
            assert(d.pivots_on(k, i, j));
            assert(d.anchors(rank, i, j));
            S::laws(one, one, one);
            assert(last == one);
            // x + 1 == s + 1
            S::laws(x, one, one);
            S::laws(sum(rank, a), one, one);
        } else {
            if d.anchors(rank, i, j) {
                let s = choose|s: int| rank <= s < d.steps() && #[trigger] d.pivots_on(s, i, j);
                if s > k {
                    assert(perm[k] != perm[s]);
                }
            }
            assert(d.lower(i, k) == zero);
            S::laws(zero, one, one);
            assert(last == zero);
            S::laws(sum(rank, a), zero, zero);
        }
    }
    lemma_dependent(m, perm, rank, low, u, diag, c);
}

proof fn lemma_dynamic_total<S: Scalar>(
    d: &Dynamic<S>,
    m: &SparseMatrix<S>,
    n: nat,
    rank: nat,
    i: int,
    t: int,
)
    requires
        S::exact(),
        d.wf(n),
        d.steps() == n,
        m.spec_dim() == n,
        d.accounts(m, rank),
        0 <= i < n,
        0 <= t < n,
    ensures
        sum(n, d.terms(i, d.perm@[t] as int)) == d.anchored(m, rank, i, d.perm@[t] as int),
{
    let j = d.perm@[t] as int;
    assert(d.active.left(i, j) == S::spec_zero()) by {
        assert(image(d.perm@, n, j));
        assert(d.active.col_gone@[j]);
    }
    S::laws(sum(n, d.terms(i, j)), S::spec_zero(), S::spec_zero());
}

impl<S: Scalar> Symbolic<S> {
    /// `x` holds the solution for the right-hand side `b`: both sweeps' result,
    /// step by step at the column of the step.
    pub open spec fn solution(&self, b: Seq<S>, x: Seq<S>) -> bool {
        forall|t: int|
            0 <= t < self.spec_dim() ==> x[(#[trigger] self.spec_perm()[t]) as int] == self.swept(
                b,
            )[t]
    }

    /// Solve in place. `scratch` is a work buffer whose contents do not matter.
    pub fn solve(&self, b: &mut [S], scratch: &mut [S])
        requires
            self.ready(),
            old(b)@.len() >= self.spec_dim(),
            old(scratch)@.len() >= self.spec_dim(),
        ensures
            final(b)@.len() == old(b)@.len(),
            final(scratch)@.len() == old(scratch)@.len(),
            self.solution(old(b)@, final(b)@),
            forall|i: int|
                self.spec_dim() <= i < final(b)@.len() ==> #[trigger] final(b)@[i] == old(b)@[i],
            forall|i: int|
                self.spec_dim() <= i < final(scratch)@.len() ==> #[trigger] final(scratch)@[i]
                    == old(scratch)@[i],
    {
        let n: usize = self.n;
        let ghost b0 = b@;
        let (y, _rest) = scratch.split_at_mut(n);
        let mut k: usize = 0;
        while k < n
            invariant
                k <= n,
                n == self.n,
                self.ready(),
                y@.len() == n,
                b@ == b0,
                b0.len() >= n,
                forall|j: int| 0 <= j < k ==> #[trigger] y@[j] == b0[self.pivot_row@[j] as int],
            decreases n - k,
        {
            assert(self.spec_pivot_row()[k as int] < n);
            y[k] = b[self.pivot_row[k]];
            k = k + 1;
        }
        assert(y@ =~= self.permuted(b0));
        solve_lower(&self.l, y);
        solve_upper(&self.u, &self.diag, y);
        assert(y@ == self.swept(b0));
        let ghost sol = y@;
        let mut k: usize = 0;
        while k < n
            invariant
                k <= n,
                n == self.n,
                self.ready(),
                y@ == sol,
                sol.len() == n,
                b@.len() == b0.len(),
                b0.len() >= n,
                forall|t: int| 0 <= t < k ==> b@[(#[trigger] self.perm@[t]) as int] == sol[t],
                forall|i: int| n <= i < b0.len() ==> #[trigger] b@[i] == b0[i],
            decreases n - k,
        {
            assert(self.spec_perm()[k as int] < n);
            b[self.perm[k]] = y[k];
            assert forall|t: int| 0 <= t < k + 1 implies b@[(#[trigger] self.perm@[t]) as int]
                == sol[t] by {
                if t < k {
                    assert(self.spec_perm()[t] != self.spec_perm()[k as int]);
                }
            }
            k = k + 1;
        }
    }

    /// How many numbers the factors store off the diagonal.
    pub open spec fn stored(&self) -> nat {
        total(self.spec_l(), self.spec_l().len()) + total(self.spec_u(), self.spec_u().len())
    }

    /// Number of stored nonzeros in L and U after the last refactorization.
    pub fn nnz(&self) -> (r: usize)
        requires
            self.stored() <= usize::MAX,
        ensures
            r == self.stored(),
    {
        proof {
            lemma_total_mono(self.spec_l(), self.spec_l().len(), self.spec_l().len());
        }
        let a: usize = count(&self.l);
        let b: usize = count(&self.u);
        a + b
    }
}

/// The entries of the first `k` columns.
pub open spec fn total<S>(c: Seq<Seq<(usize, S)>>, k: nat) -> nat
    decreases k,
{
    if k == 0 {
        0
    } else {
        total(c, (k - 1) as nat) + c[k - 1].len()
    }
}

proof fn lemma_total_mono<S>(c: Seq<Seq<(usize, S)>>, j: nat, k: nat)
    requires
        j <= k,
    ensures
        total(c, j) <= total(c, k),
    decreases k,
{
    if j < k {
        lemma_total_mono(c, j, (k - 1) as nat);
    }
}

fn count<S>(c: &Vec<Vec<(usize, S)>>) -> (r: usize)
    requires
        total(columns(c@), c@.len()) <= usize::MAX,
    ensures
        r == total(columns(c@), c@.len()),
{
    let mut r: usize = 0;
    let mut k: usize = 0;
    while k < c.len()
        invariant
            k <= c@.len(),
            total(columns(c@), c@.len()) <= usize::MAX,
            r == total(columns(c@), k as nat),
        decreases c@.len() - k,
    {
        proof {
            lemma_total_mono(columns(c@), (k + 1) as nat, c@.len());
            assert(columns(c@)[k as int] == c@[k as int]@);
        }
        r = r + c[k].len();
        k = k + 1;
    }
    r
}

proof fn lemma_upper_columns<S: Scalar>(p: &Partial<S>, n: nat)
    requires
        p.wf(n),
        p.steps() == n,
    ensures
        is_upper(columns(p.u@), n),
{
    assert forall|t: int| 0 <= t < n implies distinct(#[trigger] columns(p.u@)[t])
        && columns_below(columns(p.u@)[t], t) by {
        assert(columns(p.u@)[t] == p.u@[t]@);
    }
}

/// One more step keeps the eliminated columns reproduced.
proof fn lemma_reproduces_more<S: Scalar>(
    before: &Partial<S>,
    after: &Partial<S>,
    m: &SparseMatrix<S>,
    perm: Seq<usize>,
    col: Seq<(usize, S)>,
)
    requires
        after.extends(before),
        before.l@.len() == before.steps(),
        before.u@.len() == before.steps(),
        before.diag@.len() == before.steps(),
        before.reproduces(m, perm),
        before.steps() < perm.len(),
        forall|i: int|
            0 <= i < m.spec_dim() ==> #[trigger] row_value(col, i) == sum(
                (before.steps() + 1) as nat,
                after.terms(i, before.steps() as int),
            ),
        forall|i: int|
            0 <= i < m.spec_dim() ==> #[trigger] row_value(col, i) == m.value(
                i,
                perm[before.steps() as int] as int,
            ),
    ensures
        after.reproduces(m, perm),
{
    assert forall|i: int, t: int|
        0 <= i < m.spec_dim() && 0 <= t < after.steps() implies #[trigger] m.value(
        i,
        perm[t] as int,
    ) == sum((t + 1) as nat, after.terms(i, t)) by {
        if t < before.steps() {
            let f = before.terms(i, t);
            let g = after.terms(i, t);
            assert forall|s: int| 0 <= s < t + 1 implies #[trigger] f(s) == g(s) by {
                assert(after.l@[s] == before.l@[s]);
                assert(after.u@[t] == before.u@[t]);
                assert(after.diag@[t] == before.diag@[t]);
                assert(after.pivot_row@[s] == before.pivot_row@[s]);
            }
            lemma_sum_ext((t + 1) as nat, f, g);
        } else {
            assert(row_value(col, i) == m.value(i, perm[t] as int));
        }
    }
}

proof fn lemma_stepped<S: Scalar>(p: &Partial<S>, n: nat, s: int)
    requires
        p.wf(n),
        p.steps() == n,
        n <= usize::MAX,
        is_permutation(p.pivot_row@, n),
        0 <= s < n,
    ensures
        distinct(stepped(p.l@[s]@, p.pos@)),
        columns_below(stepped(p.l@[s]@, p.pos@), n as int),
        forall|q: int|
            0 <= q < p.l@[s]@.len() ==> s < (#[trigger] stepped(p.l@[s]@, p.pos@)[q]).0,
        forall|i: int|
            0 <= i < n ==> #[trigger] row_value(stepped(p.l@[s]@, p.pos@), i) == row_value(
                p.l@[s]@,
                p.pivot_row@[i] as int,
            ),
{
    let col = p.l@[s]@;
    let st = stepped(col, p.pos@);
    assert forall|q: int| 0 <= q < col.len() implies s < (#[trigger] st[q]).0 && st[q].0 < n
        && p.pivot_row@[st[q].0 as int] == col[q].0 by {
        let r = col[q].0 as int;
        assert(p.pos@[r] > s);
        lemma_permutation_onto(p.pivot_row@, n, r);
        let t = choose|t: int| 0 <= t < n && #[trigger] p.pivot_row@[t] == r;
        assert(p.pos@[p.pivot_row@[t] as int] == t);
    }
    assert forall|j: int, k: int| 0 <= j < k < st.len() implies (#[trigger] st[j]).0 != (
    #[trigger] st[k]).0 by {
        assert(col[j].0 != col[k].0);
        assert(p.pivot_row@[st[j].0 as int] == col[j].0);
        assert(p.pivot_row@[st[k].0 as int] == col[k].0);
    }
    assert forall|i: int| 0 <= i < n implies #[trigger] row_value(st, i) == row_value(
        col,
        p.pivot_row@[i] as int,
    ) by {
        let r = p.pivot_row@[i] as int;
        assert(p.pos@[r] == i);
        if row_has(col, r) {
            let q = row_pos(col, r);
            assert(st[q].0 == i);
            lemma_distinct_pos(st, q);
        }
        if row_has(st, i) {
            let q = row_pos(st, i);
            assert(st[q].0 == i);
            assert(col[q].0 == r);
        }
    }
}

/// L with its rows given by their steps, once every row has one.
fn to_steps<S: Scalar>(p: &Partial<S>, n: usize) -> (l: Vec<Vec<(usize, S)>>)
    requires
        p.wf(n as nat),
        p.steps() == n,
        is_permutation(p.pivot_row@, n as nat),
    ensures
        is_lower(columns(l@), n as nat),
        forall|i: int, s: int|
            0 <= i < n && 0 <= s < n ==> #[trigger] row_value(columns(l@)[s], i) == row_value(
                p.l@[s]@,
                p.pivot_row@[i] as int,
            ),
        forall|s: int| 0 <= s < n ==> (#[trigger] columns(l@)[s]) == stepped(p.l@[s]@, p.pos@),
{
    let mut l: Vec<Vec<(usize, S)>> = Vec::new();
    let mut s: usize = 0;
    while s < n
        invariant
            s <= n,
            p.wf(n as nat),
            p.steps() == n,
            l@.len() == s,
            forall|t: int| 0 <= t < s ==> (#[trigger] l@[t])@ == stepped(p.l@[t]@, p.pos@),
        decreases n - s,
    {
        let mut col: Vec<(usize, S)> = Vec::new();
        let mut q: usize = 0;
        while q < p.l[s].len()
            invariant
                s < n,
                p.wf(n as nat),
                p.steps() == n,
                q <= p.l@[s as int]@.len(),
                col@ == stepped(p.l@[s as int]@, p.pos@).take(q as int),
            decreases p.l@[s as int]@.len() - q,
        {
            let (r, v): (usize, S) = p.l[s][q];
            col.push((p.pos[r], v));
            proof {
                let st = stepped(p.l@[s as int]@, p.pos@);
                assert(st.take(q + 1) =~= st.take(q as int).push(st[q as int]));
            }
            q = q + 1;
        }
        proof {
            let st = stepped(p.l@[s as int]@, p.pos@);
            assert(st.take(st.len() as int) =~= st);
        }
        l.push(col);
        s = s + 1;
    }
    proof {
        assert forall|t: int| 0 <= t < n implies distinct(#[trigger] columns(l@)[t])
            && columns_below(columns(l@)[t], n as int) by {
            lemma_stepped(p, n as nat, t);
            assert(columns(l@)[t] == l@[t]@);
        }
        assert forall|t: int, q: int| 0 <= t < n && 0 <= q < columns(l@)[t].len() implies t < (
        #[trigger] columns(l@)[t][q]).0 by {
            lemma_stepped(p, n as nat, t);
            assert(columns(l@)[t] == l@[t]@);
            assert(t < stepped(p.l@[t]@, p.pos@)[q].0);
        }
        assert forall|i: int, t: int| 0 <= i < n && 0 <= t < n implies #[trigger] row_value(
            columns(l@)[t],
            i,
        ) == row_value(p.l@[t]@, p.pivot_row@[i] as int) by {
            lemma_stepped(p, n as nat, t);
            assert(columns(l@)[t] == l@[t]@);
        }
    }
    l
}

proof fn lemma_product<S: Scalar>(
    p: &Partial<S>,
    f: &Symbolic<S>,
    m: &SparseMatrix<S>,
    i: int,
    t: int,
)
    requires
        S::exact(),
        p.wf(f.spec_dim()),
        p.steps() == f.spec_dim(),
        m.spec_dim() == f.spec_dim(),
        p.reproduces(m, f.spec_perm()),
        is_permutation(p.pivot_row@, f.spec_dim()),
        f.spec_pivot_row() == p.pivot_row@,
        f.spec_diag() == p.diag@,
        f.spec_u() == columns(p.u@),
        forall|i: int, s: int|
            0 <= i < f.spec_dim() && 0 <= s < f.spec_dim() ==> #[trigger] row_value(
                f.spec_l()[s],
                i,
            ) == row_value(p.l@[s]@, p.pivot_row@[i] as int),
        0 <= i < f.spec_dim(),
        0 <= t < f.spec_dim(),
    ensures
        m.value(f.spec_pivot_row()[i] as int, f.spec_perm()[t] as int) == f.product(i, t),
{
    let n = f.spec_dim();
    let r = p.pivot_row@[i] as int;
    let a = p.terms(r, t);
    let b = |s: int|
        lower_at(f.spec_l(), i, s).spec_times(upper_at(f.spec_u(), f.spec_diag(), s, t));
    assert forall|s: int| 0 <= s < t + 1 implies #[trigger] a(s) == b(s) by {
        assert(row_value(f.spec_l()[s], i) == row_value(p.l@[s]@, r));
        assert(f.spec_u()[t] == p.u@[t]@);
    }
    assert forall|s: int| t + 1 <= s < n implies #[trigger] b(s) == S::spec_zero() by {
        let x = lower_at(f.spec_l(), i, s);
        S::laws(x, S::spec_zero(), x);
    }
    lemma_sum_tail((t + 1) as nat, n, a, b);
    assert(m.value(r, f.spec_perm()[t] as int) == sum((t + 1) as nat, a));
}

/// Columns that are combinations of `k` vectors through an upper factor, and one
/// more column that those vectors span, make the matrix singular: back
/// substitution names the combination.
pub proof fn lemma_dependent<S: Scalar>(
    m: &SparseMatrix<S>,
    perm: Seq<usize>,
    k: nat,
    low: spec_fn(int, int) -> S,
    u: Seq<Seq<(usize, S)>>,
    diag: Seq<S>,
    c: Seq<S>,
)
    requires
        S::exact(),
        k < m.spec_dim(),
        is_permutation(perm, m.spec_dim()),
        is_upper(u, k),
        diag.len() == k,
        c.len() == k,
        forall|t: int| 0 <= t < k ==> #[trigger] diag[t] != S::spec_zero(),
        forall|i: int, t: int|
            0 <= i < m.spec_dim() && 0 <= t < k ==> #[trigger] m.value(i, perm[t] as int) == sum(
                k,
                |s: int| low(i, s).spec_times(upper_at(u, diag, s, t)),
            ),
        forall|i: int|
            0 <= i < m.spec_dim() ==> #[trigger] m.value(i, perm[k as int] as int) == sum(
                k,
                |s: int| low(i, s).spec_times(c[s]),
            ),
    ensures
        singular(m),
{
    let n = m.spec_dim();
    let col = perm[k as int] as int;
    let zero = S::spec_zero();
    let one = S::spec_int(1);
    let less_one = zero.spec_minus(one);
    let z = backward(u, diag, c, 0);
    lemma_backward_len(u, diag, c, 0);
    // In elimination order: z, then minus one, then zeros.
    let w = |t: int| if t < k { z[t] } else if t == k { less_one } else { zero };
    let x = Seq::new(n, |j: int| w(inverse(perm, j)));
    S::laws(zero, one, one);
    assert(less_one != zero) by {
        S::laws(one, zero, zero);
        S::laws(zero, one, zero);
    }
    assert forall|t: int| 0 <= t < n implies x[(#[trigger] perm[t]) as int] == w(t) by {
        lemma_inverse(perm, n, t);
    }
    assert(x[col] == less_one) by {
        assert(x[perm[k as int] as int] == w(k as int));
    }
    assert forall|i: int| 0 <= i < n implies #[trigger] row_times(m, i, x) == zero by {
        let f = |j: int| m.value(i, j).spec_times(x[j]);
        let h = |t: int| f(perm[t] as int);
        lemma_sum_reindex(n, perm, f);
        // Cut the sum after step k.
        let g = |t: int| m.value(i, perm[t] as int).spec_times(w(t));
        assert forall|t: int| 0 <= t < k + 1 implies #[trigger] g(t) == h(t) by {}
        assert forall|t: int| k + 1 <= t < n implies #[trigger] h(t) == zero by {
            S::laws(m.value(i, perm[t] as int), zero, zero);
        }
        lemma_sum_tail((k + 1) as nat, n, g, h);
        // The first k terms give the column back.
        let hh = |t: int, s: int| low(i, s).spec_times(upper_at(u, diag, s, t)).spec_times(z[t]);
        let e = |t: int| sum(k, |s: int| hh(t, s));
        assert forall|t: int| 0 <= t < k implies #[trigger] g(t) == e(t) by {
            let b = |s: int| low(i, s).spec_times(upper_at(u, diag, s, t));
            assert(m.value(i, perm[t] as int) == sum(k, b));
            lemma_sum_scale(k, b, z[t]);
            lemma_sum_ext(k, |s: int| b(s).spec_times(z[t]), |s: int| hh(t, s));
        }
        lemma_sum_ext(k, g, e);
        lemma_sum_swap(k, k, hh);
        let by_s = |s: int| sum(k, |t: int| hh(t, s));
        let cc = |s: int| low(i, s).spec_times(c[s]);
        assert forall|s: int| 0 <= s < k implies #[trigger] by_s(s) == cc(s) by {
            let v = |t: int| upper_at(u, diag, s, t).spec_times(z[t]);
            lemma_backward(u, diag, c, s);
            assert(sum(k, v) == c[s]);
            lemma_sum_scale(k, v, low(i, s));
            let v2 = |t: int| v(t).spec_times(low(i, s));
            assert forall|t: int| 0 <= t < k implies #[trigger] v2(t) == hh(t, s) by {
                S::laws(low(i, s), upper_at(u, diag, s, t), z[t]);
                S::laws(v(t), low(i, s), z[t]);
            }
            lemma_sum_ext(k, v2, |t: int| hh(t, s));
            S::laws(c[s], low(i, s), c[s]);
        }
        lemma_sum_ext(k, by_s, cc);
        let a = m.value(i, col);
        assert(a == sum(k, cc));
        assert(sum(k, g) == a);
        assert(g(k as int) == a.spec_times(less_one));
        // a + a * (0 - 1) == a * (1 + (0 - 1)) == 0
        S::laws(one, less_one, a);
        S::laws(less_one, one, a);
        S::laws(a, one, a);
        S::laws(a, less_one, a);
        S::laws(a, zero, a);
        S::laws(one, a, a);
        S::laws(less_one, a, a);
        S::laws(zero, a, a);
    }
    assert(kernel(m, x));
}

/// A column with no usable pivot makes the matrix singular.
proof fn lemma_no_pivot_singular<S: Scalar>(
    p: &Partial<S>,
    m: &SparseMatrix<S>,
    perm: Seq<usize>,
    column: Seq<(usize, S)>,
    c: Seq<S>,
)
    requires
        S::exact(),
        p.wf(m.spec_dim()),
        p.steps() < m.spec_dim(),
        is_permutation(perm, m.spec_dim()),
        p.reproduces(m, perm),
        p.spans(column, c),
        forall|i: int|
            0 <= i < m.spec_dim() ==> #[trigger] row_value(column, i) == m.value(
                i,
                perm[p.steps() as int] as int,
            ),
    ensures
        singular(m),
{
    let k = p.steps();
    let u = columns(p.u@);
    let zero = S::spec_zero();
    let low = |i: int, s: int| p.lower(i, s);
    assert(is_upper(u, k)) by {
        assert forall|t: int| 0 <= t < k implies distinct(#[trigger] u[t]) && columns_below(
            u[t],
            t,
        ) by {
            assert(u[t] == p.u@[t]@);
        }
    }
    assert forall|i: int, t: int| 0 <= i < m.spec_dim() && 0 <= t < k implies #[trigger] m.value(
        i,
        perm[t] as int,
    ) == sum(k, |s: int| low(i, s).spec_times(upper_at(u, p.diag@, s, t))) by {
        let a = p.terms(i, t);
        let b = |s: int| low(i, s).spec_times(upper_at(u, p.diag@, s, t));
        assert forall|s: int| 0 <= s < t + 1 implies #[trigger] a(s) == b(s) by {
            assert(u[t] == p.u@[t]@);
        }
        assert forall|s: int| t + 1 <= s < k implies #[trigger] b(s) == zero by {
            S::laws(p.lower(i, s), zero, zero);
        }
        lemma_sum_tail((t + 1) as nat, k, a, b);
    }
    assert forall|i: int| 0 <= i < m.spec_dim() implies #[trigger] m.value(
        i,
        perm[k as int] as int,
    ) == sum(k, |s: int| low(i, s).spec_times(c[s])) by {
        assert(row_value(column, i) == sum(k, |s: int| p.lower(i, s).spec_times(c[s])));
        lemma_sum_ext(
            k,
            |s: int| p.lower(i, s).spec_times(c[s]),
            |s: int| low(i, s).spec_times(c[s]),
        );
    }
    lemma_dependent(m, perm, k, low, u, p.diag@, c);
}

/// The step at which `j` occurs.
spec fn inverse(perm: Seq<usize>, j: int) -> int {
    choose|t: int| 0 <= t < perm.len() && #[trigger] perm[t] == j
}

proof fn lemma_inverse(perm: Seq<usize>, n: nat, t: int)
    requires
        is_permutation(perm, n),
        0 <= t < n,
    ensures
        inverse(perm, perm[t] as int) == t,
{
    let j = perm[t] as int;
    assert(0 <= t < perm.len() && perm[t] == j);
    let s = inverse(perm, j);
    assert(0 <= s < perm.len() && perm[s] == j);
    assert(perm[s] == perm[t]);
}

} // verus!
