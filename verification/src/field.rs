//! Consequences of the field laws of an exact scalar.
use vstd::prelude::*;

use crate::scalar::Scalar;

verus! {

/// What is added may be taken away on both sides.
pub proof fn lemma_cancel<S: Scalar>(x: S, y: S, b: S)
    requires
        S::exact(),
        x.spec_plus(b) == y.spec_plus(b),
    ensures
        x == y,
{
    S::laws(x, b, b);
    S::laws(y, b, b);
}

/// `a - b == a + (-b)`.
pub proof fn lemma_minus<S: Scalar>(a: S, b: S)
    requires
        S::exact(),
    ensures
        a.spec_minus(b) == a.spec_plus(b.spec_negated()),
{
    let n = b.spec_negated();
    S::laws(a, b, b);
    S::laws(a, n, b);
    S::laws(n, b, b);
    S::laws(b, n, b);
    S::laws(a, S::spec_zero(), b);
    lemma_cancel(a.spec_minus(b), a.spec_plus(n), b);
}

/// `(-a) * b == -(a * b)`.
pub proof fn lemma_negated_product<S: Scalar>(a: S, b: S)
    requires
        S::exact(),
    ensures
        a.spec_negated().spec_times(b) == a.spec_times(b).spec_negated(),
{
    let p = a.spec_times(b);
    let q = a.spec_negated().spec_times(b);
    S::laws(a, a.spec_negated(), b);
    S::laws(b, S::spec_zero(), b);
    assert(p.spec_plus(q) == S::spec_zero());
    S::laws(p, q, q);
    S::laws(q, p, p);
    S::laws(p.spec_negated(), p, p);
    S::laws(p, p.spec_negated(), p);
    lemma_cancel(q, p.spec_negated(), p);
}

/// `a / b == a * (1 / b)`.
pub proof fn lemma_over<S: Scalar>(a: S, b: S)
    requires
        S::exact(),
        b != S::spec_zero(),
    ensures
        a.spec_over(b) == a.spec_times(S::spec_int(1).spec_over(b)),
{
    let one = S::spec_int(1);
    let inv = one.spec_over(b);
    let q = a.spec_over(b);
    S::laws(a, b, b);
    S::laws(one, b, b);
    S::laws(q, b, inv);
    S::laws(b, inv, inv);
    S::laws(inv, b, b);
    S::laws(q, one, one);
}

/// `(a + b) * c == a * c + b * c`, and `(a - b) * c == a * c - b * c`.
pub proof fn lemma_distribute<S: Scalar>(a: S, b: S, c: S)
    requires
        S::exact(),
    ensures
        a.spec_plus(b).spec_times(c) == a.spec_times(c).spec_plus(b.spec_times(c)),
        a.spec_minus(b).spec_times(c) == a.spec_times(c).spec_minus(b.spec_times(c)),
{
    S::laws(a, b, c);
    lemma_minus(a, b);
    lemma_minus(a.spec_times(c), b.spec_times(c));
    S::laws(a, b.spec_negated(), c);
    lemma_negated_product(b, c);
}

/// `(s - q) + p == (s + p) - q`.
pub proof fn lemma_plus_after_minus<S: Scalar>(s: S, q: S, p: S)
    requires
        S::exact(),
    ensures
        s.spec_minus(q).spec_plus(p) == s.spec_plus(p).spec_minus(q),
{
    let d = s.spec_minus(q);
    S::laws(s, q, q);
    S::laws(d, p, q);
    S::laws(p, q, q);
    S::laws(d, q, p);
    S::laws(d.spec_plus(p), q, q);
}

/// `(s - q) - v == s - (q + v)`.
pub proof fn lemma_minus_after_minus<S: Scalar>(s: S, q: S, v: S)
    requires
        S::exact(),
    ensures
        s.spec_minus(q).spec_minus(v) == s.spec_minus(q.spec_plus(v)),
{
    let d = s.spec_minus(q).spec_minus(v);
    S::laws(s, q, q);
    S::laws(s.spec_minus(q), v, v);
    S::laws(d, v, q);
    S::laws(v, q, q);
    S::laws(d, q.spec_plus(v), v);
}

/// The sum of two differences is the difference of the sums.
pub proof fn lemma_sum_of_differences<S: Scalar>(p: S, q: S, r: S, s: S)
    requires
        S::exact(),
    ensures
        p.spec_minus(q).spec_plus(r.spec_minus(s)) == p.spec_plus(r).spec_minus(q.spec_plus(s)),
{
    let z = r.spec_minus(s);
    lemma_plus_after_minus(p, q, z);
    S::laws(p, z, z);
    lemma_plus_after_minus(r, s, p);
    S::laws(r, p, p);
    lemma_minus_after_minus(p.spec_plus(r), s, q);
    S::laws(s, q, q);
}

/// The difference of two differences.
pub proof fn lemma_difference_of_differences<S: Scalar>(p: S, q: S, r: S, s: S)
    requires
        S::exact(),
    ensures
        p.spec_minus(q).spec_minus(r.spec_minus(s)) == p.spec_plus(s).spec_minus(q.spec_plus(r)),
{
    let y = p.spec_plus(s).spec_minus(q.spec_plus(r));
    let z = r.spec_minus(s);
    let w = s.spec_plus(r);
    lemma_sum_of_differences(p.spec_plus(s), q.spec_plus(r), r, s);
    S::laws(p, s, r);
    S::laws(q, r, s);
    S::laws(r, s, s);
    assert(y.spec_plus(z) == p.spec_plus(w).spec_minus(q.spec_plus(w)));
    lemma_minus_after_minus(p.spec_plus(w), w, q);
    S::laws(p, w, w);
    S::laws(w, q, q);
    assert(y.spec_plus(z) == p.spec_minus(q));
    S::laws(y, z, z);
}

/// A factor that is not zero may be taken away on both sides.
pub proof fn lemma_cancel_factor<S: Scalar>(x: S, y: S, b: S)
    requires
        S::exact(),
        b != S::spec_zero(),
        x.spec_times(b) == y.spec_times(b),
    ensures
        x == y,
{
    let one = S::spec_int(1);
    let inv = one.spec_over(b);
    S::laws(one, b, b);
    S::laws(inv, b, b);
    S::laws(x, b, inv);
    S::laws(y, b, inv);
    S::laws(x, one, one);
    S::laws(y, one, one);
}

/// Products distribute over what is added, taken away and negated.
pub proof fn lemma_product<S: Scalar>(g: S, p: S, q: S)
    requires
        S::exact(),
    ensures
        g.spec_times(p.spec_plus(q)) == g.spec_times(p).spec_plus(g.spec_times(q)),
        g.spec_times(p.spec_minus(q)) == g.spec_times(p).spec_minus(g.spec_times(q)),
        g.spec_times(p.spec_negated()) == g.spec_times(p).spec_negated(),
        g.spec_negated().spec_times(p) == g.spec_times(p).spec_negated(),
        g.spec_times(S::spec_zero()) == S::spec_zero(),
{
    lemma_distribute(p, q, g);
    lemma_negated_product(p, g);
    lemma_negated_product(g, p);
    S::laws(g, p, q);
    S::laws(g, q, q);
    S::laws(g, p.spec_plus(q), q);
    S::laws(g, p.spec_minus(q), q);
    S::laws(g, p.spec_negated(), q);
}

} // verus!
