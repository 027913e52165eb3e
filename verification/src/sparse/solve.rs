//! Solving with the factors, and what a solve gives.
use vstd::prelude::*;

use crate::scalar::Scalar;
use crate::sparse::algebra::{
    lemma_permutation_onto, lemma_sum_bump, lemma_sum_ext, lemma_sum_plus, lemma_sum_reindex,
    lemma_sum_scale, lemma_sum_single, lemma_sum_swap, sum,
};
use crate::sparse::frozen::Stage;
use crate::sparse::matrix::{row_has, row_pos, SparseMatrix};
use crate::sparse::symbolic::{kernel, row_times, singular, solves, Symbolic};
use crate::sparse::triangular::{
    forward, is_lower, is_upper, lemma_backward, lemma_backward_len, lemma_forward,
    lemma_forward_len, lower_at, upper_at,
};

verus! {

/// What both triangular sweeps leave gives back the permuted right-hand side
/// under `L U`.
proof fn lemma_swept<S: Scalar>(f: &Symbolic<S>, b: Seq<S>, i: int)
    requires
        S::exact(),
        f.ready(),
        forall|t: int| 0 <= t < f.spec_dim() ==> #[trigger] f.spec_diag()[t] != S::spec_zero(),
        0 <= i < f.spec_dim(),
    ensures
        f.swept(b).len() == f.spec_dim(),
        sum(f.spec_dim(), |t: int| f.product(i, t).spec_times(f.swept(b)[t])) == f.permuted(b)[i],
{
    let n = f.spec_dim();
    let l = f.spec_l();
    let u = f.spec_u();
    let d = f.spec_diag();
    let pb = f.permuted(b);
    let y = forward(l, pb, n);
    let z = f.swept(b);
    lemma_forward_len(l, pb, n);
    lemma_backward_len(u, d, y, 0);
    assert forall|s: int| 0 <= s < n implies #[trigger] y[s] == up_times(u, d, n, z, s) by {
        lemma_backward(u, d, y, s);
    }
    lemma_product_times(f, z, y, i);
    lemma_forward(l, pb, i);
    assert(low_times(l, n, y, i) == pb[i]);
}

/// A factored system is solved: with exact arithmetic, the result of a solve
/// satisfies every equation of the matrix that was factored.
pub proof fn law_factored_system_is_solved<S: Scalar>(
    f: &Symbolic<S>,
    m: &SparseMatrix<S>,
    b: Seq<S>,
    x: Seq<S>,
)
    requires
        S::exact(),
        f.factors(m),
        b.len() >= f.spec_dim(),
        f.solution(b, x),
    ensures
        solves(m, x, b),
{
    let n = f.spec_dim();
    let z = f.swept(b);
    assert forall|r: int| 0 <= r < n implies #[trigger] row_times(m, r, x) == b[r] by {
        lemma_permutation_onto(f.spec_pivot_row(), n, r);
        let i = choose|i: int| 0 <= i < n && #[trigger] f.spec_pivot_row()[i] == r;
        let g = |j: int| m.value(r, j).spec_times(x[j]);
        lemma_sum_reindex(n, f.spec_perm(), g);
        let by_step = |t: int| g(f.spec_perm()[t] as int);
        let by_t = |t: int| f.product(i, t).spec_times(z[t]);
        assert forall|t: int| 0 <= t < n implies #[trigger] by_step(t) == by_t(t) by {
            assert(x[f.spec_perm()[t] as int] == z[t]);
            assert(f.product(i, t) == m.value(r, f.spec_perm()[t] as int));
        }
        lemma_sum_ext(n, by_step, by_t);
        lemma_swept(f, b, i);
    }
}

/// A solve with anchored unknowns: with exact arithmetic, the equation that each
/// pivot before `rank` was taken from holds, and what an equation after them is
/// left short of is the value of the unknown anchored in it.
pub proof fn law_anchored_system_is_solved<S: Scalar>(
    f: &Symbolic<S>,
    m: &SparseMatrix<S>,
    rank: nat,
    b: Seq<S>,
    x: Seq<S>,
)
    requires
        S::exact(),
        f.ready(),
        m.spec_dim() == f.spec_dim(),
        f.anchors(m, rank),
        b.len() >= f.spec_dim(),
        f.solution(b, x),
    ensures
        forall|i: int|
            0 <= i < rank ==> {
                let r = #[trigger] f.spec_pivot_row()[i] as int;
                row_times(m, r, x) == b[r]
            },
        forall|i: int|
            rank <= i < f.spec_dim() ==> {
                let r = #[trigger] f.spec_pivot_row()[i] as int;
                row_times(m, r, x).spec_plus(x[f.spec_perm()[i] as int]) == b[r]
            },
{
    let n = f.spec_dim();
    let z = f.swept(b);
    assert forall|i: int| 0 <= i < n implies {
        let r = #[trigger] f.spec_pivot_row()[i] as int;
        let left = row_times(m, r, x);
        b[r] == if i < rank {
            left
        } else {
            left.spec_plus(x[f.spec_perm()[i] as int])
        }
    } by {
        let r = f.spec_pivot_row()[i] as int;
        let g = |j: int| m.value(r, j).spec_times(x[j]);
        lemma_sum_reindex(n, f.spec_perm(), g);
        let by_step = |t: int| g(f.spec_perm()[t] as int);
        let by_t = |t: int| f.product(i, t).spec_times(z[t]);
        assert forall|t: int| 0 <= t < n implies #[trigger] by_t(t) == if t == i && i >= rank {
            by_step(t).spec_plus(z[t])
        } else {
            by_step(t)
        } by {
            assert(x[f.spec_perm()[t] as int] == z[t]);
            let a = m.value(r, f.spec_perm()[t] as int);
            let one = S::spec_int(1);
            S::laws(a, one, z[t]);
            S::laws(one, z[t], one);
            S::laws(z[t], one, one);
            assert(f.product(i, t) == if t == i && i >= rank {
                a.spec_plus(one)
            } else {
                a
            });
        }
        if i < rank {
            lemma_sum_ext(n, by_step, by_t);
        } else {
            lemma_sum_bump(n, by_step, by_t, i, z[i]);
        }
        lemma_swept(f, b, i);
        assert(x[f.spec_perm()[i] as int] == z[i]);
        assert(f.permuted(b)[i] == b[r]);
    }
}

/// A regular system has one solution.
proof fn lemma_one_solution<S: Scalar>(m: &SparseMatrix<S>, x: Seq<S>, y: Seq<S>, b: Seq<S>, j: int)
    requires
        S::exact(),
        !singular(m),
        solves(m, x, b),
        solves(m, y, b),
        0 <= j < m.spec_dim(),
    ensures
        x[j] == y[j],
{
    let n = m.spec_dim();
    let zero = S::spec_zero();
    let apart = Seq::new(n, |k: int| x[k].spec_minus(y[k]));
    assert forall|i: int| 0 <= i < n implies #[trigger] row_times(m, i, apart) == zero by {
        let f = |k: int| m.value(i, k).spec_times(apart[k]);
        let g = |k: int| m.value(i, k).spec_times(y[k]);
        let h = |k: int| m.value(i, k).spec_times(x[k]);
        let both = |k: int| f(k).spec_plus(g(k));
        lemma_sum_plus(n, f, g);
        assert forall|k: int| 0 <= k < n implies #[trigger] both(k) == h(k) by {
            let a = m.value(i, k);
            S::laws(apart[k], y[k], a);
            S::laws(apart[k], a, a);
            S::laws(y[k], a, a);
            S::laws(x[k], y[k], y[k]);
            S::laws(x[k], a, a);
        }
        lemma_sum_ext(n, both, h);
        assert(row_times(m, i, x) == b[i] && row_times(m, i, y) == b[i]);
        // d + b == b
        let d = row_times(m, i, apart);
        S::laws(d, b[i], b[i]);
        S::laws(zero, b[i], b[i]);
        S::laws(b[i], b[i], b[i]);
    }
    if x[j] != y[j] {
        S::laws(x[j], y[j], y[j]);
        S::laws(zero, y[j], y[j]);
        S::laws(y[j], zero, zero);
        assert(apart[j] != zero);
        assert(kernel(m, apart));
    }
}

/// Factorizations agree: with exact arithmetic, whatever order two factorizations
/// of one matrix picked their pivots in, a solve with the one and a solve with the
/// other give the same unknowns.
pub proof fn law_factorizations_agree<S: Scalar>(
    f: &Symbolic<S>,
    g: &Symbolic<S>,
    m: &SparseMatrix<S>,
    b: Seq<S>,
    x: Seq<S>,
    y: Seq<S>,
)
    requires
        S::exact(),
        f.factors(m),
        g.factors(m),
        b.len() >= f.spec_dim(),
        f.solution(b, x),
        g.solution(b, y),
    ensures
        forall|j: int| 0 <= j < m.spec_dim() ==> #[trigger] x[j] == y[j],
{
    law_factored_system_is_solved(f, m, b, x);
    law_factored_system_is_solved(g, m, b, y);
    law_factored_is_regular(f, m);
    assert forall|j: int| 0 <= j < m.spec_dim() implies #[trigger] x[j] == y[j] by {
        lemma_one_solution(m, x, y, b, j);
    }
}

/// Row `i` of L times `v`.
spec fn low_times<S: Scalar>(l: Seq<Seq<(usize, S)>>, n: nat, v: Seq<S>, i: int) -> S {
    sum(n, |s: int| lower_at(l, i, s).spec_times(v[s]))
}

/// Row `s` of U times `v`.
spec fn up_times<S: Scalar>(
    u: Seq<Seq<(usize, S)>>,
    d: Seq<S>,
    n: nat,
    v: Seq<S>,
    s: int,
) -> S {
    sum(n, |t: int| upper_at(u, d, s, t).spec_times(v[t]))
}

proof fn lemma_lower_regular<S: Scalar>(l: Seq<Seq<(usize, S)>>, n: nat, v: Seq<S>, i: int)
    requires
        S::exact(),
        is_lower(l, n),
        v.len() == n,
        0 <= i < n,
        forall|r: int|
            0 <= r < n ==> #[trigger] low_times(l, n, v, r) == S::spec_zero(),
    ensures
        v[i] == S::spec_zero(),
    decreases i,
{
    let f = |s: int| lower_at(l, i, s).spec_times(v[s]);
    assert forall|s: int| 0 <= s < n && s != i implies #[trigger] f(s) == S::spec_zero() by {
        let low = lower_at(l, i, s);
        if s < i {
            lemma_lower_regular(l, n, v, s);
            S::laws(low, S::spec_zero(), low);
        } else {
            if row_has(l[s], i) {
                let p = row_pos(l[s], i);
                assert(s < l[s][p].0);
            }
            S::laws(S::spec_zero(), v[s], low);
            S::laws(v[s], S::spec_zero(), low);
        }
    }
    lemma_sum_single(n, f, i);
    assert(low_times(l, n, v, i) == S::spec_zero());
    assert(sum(n, f) == S::spec_zero());
    S::laws(v[i], S::spec_int(1), v[i]);
    S::laws(S::spec_int(1), v[i], v[i]);
}

proof fn lemma_upper_regular<S: Scalar>(
    u: Seq<Seq<(usize, S)>>,
    d: Seq<S>,
    n: nat,
    v: Seq<S>,
    i: int,
)
    requires
        S::exact(),
        is_upper(u, n),
        d.len() == n,
        v.len() == n,
        0 <= i < n,
        forall|t: int| 0 <= t < n ==> #[trigger] d[t] != S::spec_zero(),
        forall|r: int|
            0 <= r < n ==> #[trigger] up_times(u, d, n, v, r) == S::spec_zero(),
    ensures
        v[i] == S::spec_zero(),
    decreases n - i,
{
    let f = |t: int| upper_at(u, d, i, t).spec_times(v[t]);
    assert forall|t: int| 0 <= t < n && t != i implies #[trigger] f(t) == S::spec_zero() by {
        let up = upper_at(u, d, i, t);
        if t > i {
            lemma_upper_regular(u, d, n, v, t);
            S::laws(up, S::spec_zero(), up);
        } else {
            S::laws(S::spec_zero(), v[t], up);
            S::laws(v[t], S::spec_zero(), up);
        }
    }
    lemma_sum_single(n, f, i);
    assert(up_times(u, d, n, v, i) == S::spec_zero());
    assert(sum(n, f) == S::spec_zero());
    // d * v == 0, so v == 1 * v == ((1 / d) * d) * v == (1 / d) * 0 == 0.
    let one = S::spec_int(1);
    let inv = one.spec_over(d[i]);
    S::laws(one, d[i], one);
    S::laws(inv, d[i], v[i]);
    S::laws(v[i], one, one);
    S::laws(one, v[i], one);
    S::laws(inv, S::spec_zero(), one);
}

/// Only a regular matrix has factors: with exact arithmetic, a factored matrix
/// sends no nonzero vector to zero.
pub proof fn law_factored_is_regular<S: Scalar>(f: &Symbolic<S>, m: &SparseMatrix<S>)
    requires
        S::exact(),
        f.factors(m),
    ensures
        !singular(m),
{
    let n = f.spec_dim();
    let l = f.spec_l();
    let u = f.spec_u();
    let d = f.spec_diag();
    assert forall|x: Seq<S>| !#[trigger] kernel(m, x) by {
        if kernel(m, x) {
            let v = Seq::new(n, |t: int| x[f.spec_perm()[t] as int]);
            let w = Seq::new(n, |s: int| up_times(u, d, n, v, s));
            assert forall|i: int| 0 <= i < n implies #[trigger] low_times(l, n, w, i)
                == S::spec_zero() by {
                let r = f.spec_pivot_row()[i] as int;
                assert(row_times(m, r, x) == S::spec_zero());
                let g = |j: int| m.value(r, j).spec_times(x[j]);
                lemma_sum_reindex(n, f.spec_perm(), g);
                let by_step = |t: int| g(f.spec_perm()[t] as int);
                let by_t = |t: int| f.product(i, t).spec_times(v[t]);
                assert forall|t: int| 0 <= t < n implies #[trigger] by_step(t) == by_t(t) by {
                    assert(f.product(i, t) == m.value(r, f.spec_perm()[t] as int));
                }
                lemma_sum_ext(n, by_step, by_t);
                lemma_product_times(f, v, w, i);
            }
            assert forall|s: int| 0 <= s < n implies #[trigger] up_times(u, d, n, v, s)
                == S::spec_zero() by {
                lemma_lower_regular(l, n, w, s);
            }
            let j = choose|j: int| 0 <= j < x.len() && #[trigger] x[j] != S::spec_zero();
            lemma_permutation_onto(f.spec_perm(), n, j);
            let t = choose|t: int| 0 <= t < n && #[trigger] f.spec_perm()[t] == j;
            lemma_upper_regular(u, d, n, v, t);
            assert(v[t] == x[j]);
        }
    }
}

/// Equal factors solve alike, to the last bit: what a solve gives is fixed by the
/// column order and the factors it goes by, whatever the scalar.
pub proof fn law_equal_factors_solve_alike<S: Scalar>(
    f: &Symbolic<S>,
    g: &Symbolic<S>,
    s: Stage<S>,
    b: Seq<S>,
    x: Seq<S>,
    y: Seq<S>,
)
    requires
        f.wf(),
        f.spec_dim() == g.spec_dim(),
        f.spec_perm() == g.spec_perm(),
        f.holds(s),
        g.holds(s),
        f.solution(b, x),
        g.solution(b, y),
    ensures
        forall|j: int| 0 <= j < f.spec_dim() ==> #[trigger] x[j] == y[j],
{
    assert(f.permuted(b) =~= g.permuted(b));
    assert forall|j: int| 0 <= j < f.spec_dim() implies #[trigger] x[j] == y[j] by {
        lemma_permutation_onto(f.spec_perm(), f.spec_dim(), j);
        let t = choose|t: int| 0 <= t < f.spec_dim() && #[trigger] f.spec_perm()[t] == j;
        assert(x[f.spec_perm()[t] as int] == f.swept(b)[t]);
        assert(y[g.spec_perm()[t] as int] == g.swept(b)[t]);
    }
}

/// Below an anchor there is nothing, beside it neither.
proof fn lemma_unit_step<S: Scalar>(f: &Symbolic<S>, s: int, v: Seq<S>)
    requires
        S::exact(),
        f.ready(),
        0 <= s < f.spec_dim(),
        f.unit_step(s),
        v.len() == f.spec_dim(),
    ensures
        forall|i: int| #[trigger]
            lower_at(f.spec_l(), i, s) == if i == s {
                S::spec_int(1)
            } else {
                S::spec_zero()
            },
        up_times(f.spec_u(), f.spec_diag(), f.spec_dim(), v, s) == v[s],
{
    let (u, d, n) = (f.spec_u(), f.spec_diag(), f.spec_dim());
    let g = |t: int| upper_at(u, d, s, t).spec_times(v[t]);
    assert forall|t: int| 0 <= t < n && t != s implies #[trigger] g(t) == S::spec_zero() by {
        if t > s {
            assert(!row_has(u[t], s));
        }
        assert(upper_at(u, d, s, t) == S::spec_zero());
        S::laws(S::spec_zero(), v[t], v[t]);
        S::laws(v[t], S::spec_zero(), v[t]);
    }
    lemma_sum_single(n, g, s);
    S::laws(S::spec_int(1), v[s], v[s]);
    S::laws(v[s], S::spec_int(1), v[s]);
    assert forall|i: int| #[trigger]
        lower_at(f.spec_l(), i, s) == if i == s {
            S::spec_int(1)
        } else {
            S::spec_zero()
        } by {
        assert(!row_has(f.spec_l()[s], i));
    }
}

/// `L` takes two vectors to one and the same only where they are equal.
proof fn lemma_lower_same<S: Scalar>(
    l: Seq<Seq<(usize, S)>>,
    n: nat,
    v: Seq<S>,
    w: Seq<S>,
    s: int,
)
    requires
        S::exact(),
        is_lower(l, n),
        v.len() == n,
        w.len() == n,
        forall|i: int|
            0 <= i < n ==> #[trigger] low_times(l, n, v, i) == low_times(l, n, w, i),
        0 <= s < n,
    ensures
        v[s] == w[s],
{
    let apart = Seq::new(n, |k: int| v[k].spec_minus(w[k]));
    assert forall|i: int| 0 <= i < n implies #[trigger] low_times(l, n, apart, i)
        == S::spec_zero() by {
        let f = |k: int| lower_at(l, i, k).spec_times(apart[k]);
        let g = |k: int| lower_at(l, i, k).spec_times(w[k]);
        let h = |k: int| lower_at(l, i, k).spec_times(v[k]);
        let both = |k: int| f(k).spec_plus(g(k));
        lemma_sum_plus(n, f, g);
        assert forall|k: int| 0 <= k < n implies #[trigger] both(k) == h(k) by {
            let a = lower_at(l, i, k);
            S::laws(apart[k], w[k], a);
            S::laws(apart[k], a, a);
            S::laws(w[k], a, a);
            S::laws(v[k], w[k], w[k]);
            S::laws(v[k], a, a);
        }
        lemma_sum_ext(n, both, h);
        let c = low_times(l, n, w, i);
        assert(low_times(l, n, v, i) == c);
        let e = low_times(l, n, apart, i);
        S::laws(e, c, c);
        S::laws(S::spec_zero(), c, c);
        S::laws(c, c, c);
    }
    lemma_lower_regular(l, n, apart, s);
    S::laws(v[s], w[s], w[s]);
    S::laws(S::spec_zero(), w[s], w[s]);
    S::laws(w[s], S::spec_zero(), w[s]);
}

/// The rows of `L U` go by way of U.
proof fn lemma_product_times<S: Scalar>(f: &Symbolic<S>, v: Seq<S>, w: Seq<S>, i: int)
    requires
        S::exact(),
        v.len() == f.spec_dim(),
        w.len() == f.spec_dim(),
        forall|s: int|
            0 <= s < f.spec_dim() ==> #[trigger] w[s] == up_times(
                f.spec_u(),
                f.spec_diag(),
                f.spec_dim(),
                v,
                s,
            ),
    ensures
        sum(f.spec_dim(), |t: int| f.product(i, t).spec_times(v[t])) == low_times(
            f.spec_l(),
            f.spec_dim(),
            w,
            i,
        ),
{
    let (l, u, d, n) = (f.spec_l(), f.spec_u(), f.spec_diag(), f.spec_dim());
    let by_step = |t: int| f.product(i, t).spec_times(v[t]);
    let h = |s: int, t: int| lower_at(l, i, s).spec_times(upper_at(u, d, s, t).spec_times(v[t]));
    let by_t = |t: int| sum(n, |s: int| h(s, t));
    assert forall|t: int| 0 <= t < n implies #[trigger] by_step(t) == by_t(t) by {
        let e = |s: int| lower_at(l, i, s).spec_times(upper_at(u, d, s, t));
        assert(f.product(i, t) == sum(n, e));
        lemma_sum_scale(n, e, v[t]);
        let e2 = |s: int| e(s).spec_times(v[t]);
        assert forall|s: int| 0 <= s < n implies #[trigger] e2(s) == h(s, t) by {
            S::laws(lower_at(l, i, s), upper_at(u, d, s, t), v[t]);
        }
        lemma_sum_ext(n, e2, |s: int| h(s, t));
    }
    lemma_sum_ext(n, by_step, by_t);
    lemma_sum_swap(n, n, h);
    let by_s = |s: int| sum(n, |t: int| h(s, t));
    let lw = |s: int| lower_at(l, i, s).spec_times(w[s]);
    assert forall|s: int| 0 <= s < n implies #[trigger] by_s(s) == lw(s) by {
        let c = |t: int| upper_at(u, d, s, t).spec_times(v[t]);
        let low = lower_at(l, i, s);
        assert(w[s] == sum(n, c));
        lemma_sum_scale(n, c, low);
        let c2 = |t: int| c(t).spec_times(low);
        assert forall|t: int| 0 <= t < n implies #[trigger] c2(t) == h(s, t) by {
            S::laws(c(t), low, low);
        }
        lemma_sum_ext(n, c2, |t: int| h(s, t));
        S::laws(w[s], low, low);
    }
    lemma_sum_ext(n, by_s, lw);
}

/// A consistent system is solved, singular or not: with exact arithmetic, where some
/// vector satisfies every equation, so does the result of a solve, and every anchored
/// unknown comes out as zero.
pub proof fn law_consistent_system_is_solved<S: Scalar>(
    f: &Symbolic<S>,
    m: &SparseMatrix<S>,
    rank: nat,
    b: Seq<S>,
    x: Seq<S>,
    other: Seq<S>,
)
    requires
        S::exact(),
        f.ready(),
        m.spec_dim() == f.spec_dim(),
        f.anchors(m, rank),
        b.len() >= f.spec_dim(),
        f.solution(b, x),
        solves(m, other, b),
    ensures
        forall|i: int|
            rank <= i < f.spec_dim() ==> x[(#[trigger] f.spec_perm()[i]) as int]
                == S::spec_zero(),
        solves(m, x, b),
{
    let (l, u, d, n) = (f.spec_l(), f.spec_u(), f.spec_diag(), f.spec_dim());
    let zero = S::spec_zero();
    let one = S::spec_int(1);
    let pb = f.permuted(b);
    let y = forward(l, pb, n);
    let z = f.swept(b);
    lemma_forward_len(l, pb, n);
    lemma_backward_len(u, d, y, 0);
    let v = Seq::new(n, |t: int| other[f.spec_perm()[t] as int]);
    let w = Seq::new(n, |s: int| up_times(u, d, n, v, s));
    let cut = Seq::new(
        n,
        |s: int|
            if s < rank {
                w[s]
            } else {
                zero
            },
    );
    assert forall|i: int| 0 <= i < n implies #[trigger] low_times(l, n, cut, i) == pb[i] by {
        let r = f.spec_pivot_row()[i] as int;
        assert(row_times(m, r, other) == b[r]);
        let g = |j: int| m.value(r, j).spec_times(other[j]);
        lemma_sum_reindex(n, f.spec_perm(), g);
        let by_step = |t: int| g(f.spec_perm()[t] as int);
        let by_t = |t: int| f.product(i, t).spec_times(v[t]);
        assert forall|t: int| 0 <= t < n implies #[trigger] by_t(t) == if t == i && i >= rank {
            by_step(t).spec_plus(v[t])
        } else {
            by_step(t)
        } by {
            let a = m.value(r, f.spec_perm()[t] as int);
            S::laws(a, one, v[t]);
            S::laws(one, v[t], one);
            S::laws(v[t], one, one);
            assert(f.product(i, t) == if t == i && i >= rank {
                a.spec_plus(one)
            } else {
                a
            });
        }
        lemma_product_times(f, v, w, i);
        let lw = |s: int| lower_at(l, i, s).spec_times(w[s]);
        let lc = |s: int| lower_at(l, i, s).spec_times(cut[s]);
        assert forall|s: int| 0 <= s < n && s != i implies #[trigger] lc(s) == lw(s) by {
            if s >= rank {
                assert(f.unit_step(s));
                lemma_unit_step(f, s, v);
                assert(lower_at(l, i, s) == zero);
                S::laws(zero, w[s], w[s]);
                S::laws(w[s], zero, w[s]);
                S::laws(zero, zero, zero);
            }
        }
        if i < rank {
            lemma_sum_ext(n, by_step, by_t);
            assert(lc(i) == lw(i));
            lemma_sum_ext(n, lc, lw);
        } else {
            lemma_sum_bump(n, by_step, by_t, i, v[i]);
            assert(f.unit_step(i));
            lemma_unit_step(f, i, v);
            assert(w[i] == v[i]);
            assert(lower_at(l, i, i) == one);
            S::laws(one, v[i], one);
            S::laws(v[i], one, one);
            S::laws(one, zero, one);
            S::laws(zero, v[i], zero);
            S::laws(v[i], zero, zero);
            assert(lw(i) == lc(i).spec_plus(v[i]));
            lemma_sum_bump(n, lc, lw, i, v[i]);
            // sum of lc, plus v[i], is b[r] plus v[i]
            S::laws(sum(n, lc), v[i], v[i]);
            S::laws(b[r], v[i], v[i]);
        }
    }
    assert forall|i: int| 0 <= i < n implies #[trigger] low_times(l, n, y, i) == low_times(
        l,
        n,
        cut,
        i,
    ) by {
        lemma_forward(l, pb, i);
        assert(low_times(l, n, cut, i) == pb[i]);
    }
    assert forall|i: int| rank <= i < n implies x[(#[trigger] f.spec_perm()[i]) as int]
        == zero by {
        lemma_lower_same(l, n, y, cut, i);
        lemma_backward(u, d, y, i);
        assert(up_times(u, d, n, z, i) == y[i]);
        assert(f.unit_step(i));
        lemma_unit_step(f, i, z);
        assert(x[f.spec_perm()[i] as int] == z[i]);
    }
    law_anchored_system_is_solved(f, m, rank, b, x);
    assert forall|r: int| 0 <= r < n implies #[trigger] row_times(m, r, x) == b[r] by {
        lemma_permutation_onto(f.spec_pivot_row(), n, r);
        let i = choose|i: int| 0 <= i < n && #[trigger] f.spec_pivot_row()[i] == r;
        if i >= rank {
            assert(x[f.spec_perm()[i] as int] == zero);
            S::laws(row_times(m, r, x), zero, zero);
        }
    }
}

} // verus!
