//! Forward and back substitution over sparse triangular columns.
use vstd::prelude::*;

use crate::scalar::Scalar;
use crate::sparse::algebra::{
    lemma_sum_bump, lemma_sum_ext, lemma_sum_zero, sum,
};
use crate::sparse::column::{distinct, eliminate, eliminated};
use crate::sparse::matrix::{columns_below, row_has, row_pos, row_value};

verus! {

/// Columns as sequences.
pub open spec fn columns<S>(c: Seq<Vec<(usize, S)>>) -> Seq<Seq<(usize, S)>> {
    Seq::new(c.len(), |i: int| c[i]@)
}

/// Column `s` of a unit lower factor holds rows strictly between `s` and `n`.
pub open spec fn is_lower<S>(l: Seq<Seq<(usize, S)>>, n: nat) -> bool {
    &&& l.len() == n
    &&& forall|s: int| 0 <= s < n ==> distinct(#[trigger] l[s]) && columns_below(l[s], n as int)
    &&& forall|s: int, p: int|
        0 <= s < n && 0 <= p < l[s].len() ==> s < (#[trigger] l[s][p]).0
}

/// Column `t` of a strict upper factor holds rows below `t`.
pub open spec fn is_upper<S>(u: Seq<Seq<(usize, S)>>, n: nat) -> bool {
    &&& u.len() == n
    &&& forall|t: int| 0 <= t < n ==> distinct(#[trigger] u[t]) && columns_below(u[t], t)
}

/// L with its unit diagonal.
pub open spec fn lower_at<S: Scalar>(l: Seq<Seq<(usize, S)>>, i: int, s: int) -> S {
    if i == s {
        S::spec_int(1)
    } else {
        row_value(l[s], i)
    }
}

/// U with its diagonal.
pub open spec fn upper_at<S: Scalar>(
    u: Seq<Seq<(usize, S)>>,
    diag: Seq<S>,
    s: int,
    t: int,
) -> S {
    if s == t {
        diag[t]
    } else if s < t {
        row_value(u[t], s)
    } else {
        S::spec_zero()
    }
}

/// `y` after the first `k` columns of forward substitution.
pub open spec fn forward<S: Scalar>(l: Seq<Seq<(usize, S)>>, y: Seq<S>, k: nat) -> Seq<S>
    decreases k,
{
    if k == 0 {
        y
    } else {
        let z = forward(l, y, (k - 1) as nat);
        eliminated(z, l[k - 1], z[k - 1])
    }
}

/// `y` after back substitution of the columns from the last down to `k`.
pub open spec fn backward<S: Scalar>(
    u: Seq<Seq<(usize, S)>>,
    diag: Seq<S>,
    y: Seq<S>,
    k: int,
) -> Seq<S>
    decreases y.len() - k,
{
    if k >= y.len() {
        y
    } else {
        let z = backward(u, diag, y, k + 1);
        let xk = z[k].spec_over(diag[k]);
        eliminated(z.update(k, xk), u[k], xk)
    }
}

pub proof fn lemma_forward_len<S: Scalar>(l: Seq<Seq<(usize, S)>>, y: Seq<S>, k: nat)
    ensures
        forward(l, y, k).len() == y.len(),
    decreases k,
{
    if k > 0 {
        lemma_forward_len(l, y, (k - 1) as nat);
    }
}

pub proof fn lemma_backward_len<S: Scalar>(
    u: Seq<Seq<(usize, S)>>,
    diag: Seq<S>,
    y: Seq<S>,
    k: int,
)
    requires
        0 <= k,
    ensures
        backward(u, diag, y, k).len() == y.len(),
    decreases y.len() - k,
{
    if k < y.len() {
        lemma_backward_len(u, diag, y, k + 1);
    }
}

/// The terms that the first columns took off row `i`.
spec fn below<S: Scalar>(l: Seq<Seq<(usize, S)>>, z: Seq<S>, i: int) -> spec_fn(int) -> S {
    |s: int| row_value(l[s], i).spec_times(z[s])
}

proof fn lemma_lower_zero<S: Scalar>(l: Seq<Seq<(usize, S)>>, n: nat, s: int, i: int)
    requires
        is_lower(l, n),
        0 <= s < n,
        i <= s,
    ensures
        !row_has(l[s], i),
        row_value(l[s], i) == S::spec_zero(),
{
    if row_has(l[s], i) {
        let p = row_pos(l[s], i);
        assert(s < l[s][p].0);
    }
}

proof fn lemma_forward_prefix<S: Scalar>(l: Seq<Seq<(usize, S)>>, y: Seq<S>, k: nat, i: int)
    requires
        S::exact(),
        is_lower(l, y.len()),
        k <= y.len(),
        0 <= i < y.len(),
    ensures
        y[i] == forward(l, y, k)[i].spec_plus(sum(k, below(l, forward(l, y, k), i))),
    decreases k,
{
    lemma_forward_len(l, y, k);
    if k == 0 {
        S::laws(y[i], y[i], y[i]);
    } else {
        let m = (k - 1) as nat;
        let z = forward(l, y, m);
        let w = forward(l, y, k);
        lemma_forward_len(l, y, m);
        lemma_forward_prefix(l, y, m, i);
        let f = below(l, z, i);
        let g = below(l, w, i);
        assert forall|s: int| 0 <= s < m implies #[trigger] f(s) == g(s) by {
            lemma_lower_zero(l, y.len(), k - 1, s);
        }
        lemma_sum_ext(m, f, g);
        lemma_lower_zero(l, y.len(), k - 1, k - 1);
        assert(w[k - 1] == z[k - 1]);
        let d = row_value(l[k - 1], i).spec_times(z[k - 1]);
        assert(g(k - 1) == d);
        assert(z[i] == w[i].spec_plus(d)) by {
            if row_has(l[k - 1], i) {
                S::laws(z[i], d, d);
            } else {
                S::laws(z[k - 1], S::spec_zero(), d);
                S::laws(S::spec_zero(), z[k - 1], d);
                S::laws(w[i], d, d);
            }
        }
        let t = sum(m, g);
        S::laws(w[i], d, t);
        S::laws(d, t, t);
        S::laws(t, d, t);
    }
}

/// Forward substitution solves the unit lower system.
pub proof fn lemma_forward<S: Scalar>(l: Seq<Seq<(usize, S)>>, y: Seq<S>, i: int)
    requires
        S::exact(),
        is_lower(l, y.len()),
        0 <= i < y.len(),
    ensures
        sum(
            y.len(),
            |s: int| lower_at(l, i, s).spec_times(forward(l, y, y.len())[s]),
        ) == y[i],
{
    let n = y.len();
    let w = forward(l, y, n);
    lemma_forward_len(l, y, n);
    lemma_forward_prefix(l, y, n, i);
    let f = below(l, w, i);
    let g = |s: int| lower_at(l, i, s).spec_times(w[s]);
    lemma_lower_zero(l, n, i, i);
    assert(g(i) == f(i).spec_plus(w[i])) by {
        let one = S::spec_int(1);
        S::laws(w[i], one, one);
        S::laws(one, w[i], one);
        S::laws(S::spec_zero(), w[i], one);
        S::laws(w[i], S::spec_zero(), one);
    }
    assert forall|s: int| 0 <= s < n && s != i implies #[trigger] f(s) == g(s) by {}
    lemma_sum_bump(n, f, g, i, w[i]);
    S::laws(w[i], sum(n, f), w[i]);
}

/// The terms of row `s` that the columns from `k` on contribute.
spec fn above<S: Scalar>(
    u: Seq<Seq<(usize, S)>>,
    diag: Seq<S>,
    w: Seq<S>,
    s: int,
    k: int,
) -> spec_fn(int) -> S {
    |t: int|
        if t < k {
            S::spec_zero()
        } else {
            upper_at(u, diag, s, t).spec_times(w[t])
        }
}

proof fn lemma_upper_zero<S: Scalar>(u: Seq<Seq<(usize, S)>>, n: nat, t: int, s: int)
    requires
        is_upper(u, n),
        0 <= t < n,
        s >= t,
    ensures
        !row_has(u[t], s),
{
    if row_has(u[t], s) {
        let p = row_pos(u[t], s);
        assert(u[t][p].0 < t);
    }
}

proof fn lemma_backward_suffix<S: Scalar>(
    u: Seq<Seq<(usize, S)>>,
    diag: Seq<S>,
    y: Seq<S>,
    k: int,
    s: int,
)
    requires
        S::exact(),
        is_upper(u, y.len()),
        diag.len() == y.len(),
        forall|t: int| 0 <= t < y.len() ==> #[trigger] diag[t] != S::spec_zero(),
        0 <= k <= y.len(),
        0 <= s < y.len(),
    ensures
        ({
            let w = backward(u, diag, y, k);
            let tail = sum(y.len(), above(u, diag, w, s, k));
            y[s] == if s < k {
                w[s].spec_plus(tail)
            } else {
                tail
            }
        }),
    decreases y.len() - k,
{
    let n = y.len();
    let w = backward(u, diag, y, k);
    lemma_backward_len(u, diag, y, k);
    if k == n {
        let g = above(u, diag, w, s, k);
        assert forall|t: int| 0 <= t < n implies #[trigger] g(t) == S::spec_zero() by {}
        lemma_sum_zero(n, g);
        S::laws(y[s], y[s], y[s]);
    } else {
        let z = backward(u, diag, y, k + 1);
        lemma_backward_len(u, diag, y, k + 1);
        lemma_backward_suffix(u, diag, y, k + 1, s);
        let xk = z[k].spec_over(diag[k]);
        let f = above(u, diag, z, s, k + 1);
        let g = above(u, diag, w, s, k);
        lemma_upper_zero(u, n, k, k);
        assert(w[k] == xk);
        assert forall|t: int| 0 <= t < n && t != k implies #[trigger] f(t) == g(t) by {
            if t > k {
                lemma_upper_zero(u, n, k, t);
                assert(w[t] == z[t]);
            }
        }
        let d = upper_at(u, diag, s, k).spec_times(xk);
        assert(g(k) == d);
        S::laws(S::spec_zero(), d, d);
        S::laws(d, S::spec_zero(), d);
        lemma_sum_bump(n, f, g, k, d);
        let t = sum(n, f);
        if s < k {
            assert(z[s] == w[s].spec_plus(d)) by {
                if row_has(u[k], s) {
                    S::laws(z[s], d, d);
                } else {
                    S::laws(xk, S::spec_zero(), d);
                    S::laws(S::spec_zero(), xk, d);
                    S::laws(w[s], d, d);
                }
            }
            S::laws(w[s], d, t);
            S::laws(d, t, t);
            S::laws(t, d, t);
        } else if s == k {
            assert(z[k] == d) by {
                S::laws(z[k], diag[k], d);
                S::laws(diag[k], xk, d);
            }
            S::laws(z[k], t, d);
        } else {
            assert(d == S::spec_zero()) by {
                S::laws(S::spec_zero(), xk, d);
                S::laws(xk, S::spec_zero(), d);
            }
            S::laws(t, d, d);
        }
    }
}

/// Back substitution solves the upper system.
pub proof fn lemma_backward<S: Scalar>(
    u: Seq<Seq<(usize, S)>>,
    diag: Seq<S>,
    y: Seq<S>,
    s: int,
)
    requires
        S::exact(),
        is_upper(u, y.len()),
        diag.len() == y.len(),
        forall|t: int| 0 <= t < y.len() ==> #[trigger] diag[t] != S::spec_zero(),
        0 <= s < y.len(),
    ensures
        sum(
            y.len(),
            |t: int| upper_at(u, diag, s, t).spec_times(backward(u, diag, y, 0)[t]),
        ) == y[s],
{
    let n = y.len();
    let w = backward(u, diag, y, 0);
    lemma_backward_suffix(u, diag, y, 0, s);
    let f = above(u, diag, w, s, 0);
    let g = |t: int| upper_at(u, diag, s, t).spec_times(w[t]);
    assert forall|t: int| 0 <= t < n implies #[trigger] f(t) == g(t) by {}
    lemma_sum_ext(n, f, g);
}

/// Solve the unit lower system in place.
pub fn solve_lower<S: Scalar>(l: &Vec<Vec<(usize, S)>>, y: &mut [S])
    requires
        is_lower(columns(l@), l@.len()),
        old(y)@.len() == l@.len(),
    ensures
        final(y)@ == forward(columns(l@), old(y)@, l@.len()),
        final(y)@.len() == old(y)@.len(),
{
    let ghost start = y@;
    let mut k: usize = 0;
    while k < l.len()
        invariant
            k <= l@.len(),
            is_lower(columns(l@), l@.len()),
            y@.len() == l@.len(),
            y@ == forward(columns(l@), start, k as nat),
        decreases l@.len() - k,
    {
        let yk: S = y[k];
        assert(columns(l@)[k as int] == l@[k as int]@);
        eliminate(y, &l[k], yk);
        k = k + 1;
    }
}

/// Solve the upper system in place.
pub fn solve_upper<S: Scalar>(u: &Vec<Vec<(usize, S)>>, diag: &Vec<S>, y: &mut [S])
    requires
        is_upper(columns(u@), u@.len()),
        diag@.len() == u@.len(),
        old(y)@.len() == u@.len(),
    ensures
        final(y)@ == backward(columns(u@), diag@, old(y)@, 0),
        final(y)@.len() == old(y)@.len(),
{
    let ghost start = y@;
    let mut k: usize = u.len();
    while k > 0
        invariant
            k <= u@.len(),
            is_upper(columns(u@), u@.len()),
            diag@.len() == u@.len(),
            y@.len() == u@.len(),
            start.len() == u@.len(),
            y@ == backward(columns(u@), diag@, start, k as int),
        decreases k,
    {
        k = k - 1;
        let xk: S = y[k].over(diag[k]);
        y[k] = xk;
        assert(columns(u@)[k as int] == u@[k as int]@);
        assert(columns_below(u@[k as int]@, y@.len() as int)) by {
            assert(columns_below(columns(u@)[k as int], k as int));
        }
        eliminate(y, &u[k], xk);
    }
}

} // verus!
