//! What the integration rules make of a value and its history.
use vstd::prelude::*;

use crate::field::{lemma_distribute, lemma_product};
use crate::options::Integration;
use crate::scalar::Scalar;
use crate::stamp::context::{charge_history, step_coeffs, IntegCoeffs};
use crate::stamp::linear::{capacitor_history, inductor_history};
use crate::terms::{group_sums, lemma_same_terms, term, Sum};

verus! {

/// Whether `rate` is the rate of change that a rule finds over a step `dt` that ends
/// at `v`, from the value `v1` and the rate `dv1` at its start and the value `v2` a
/// step earlier.
pub open spec fn integrates<S: Scalar>(
    method: Integration,
    dt: S,
    rate: S,
    v: S,
    v1: S,
    dv1: S,
    v2: S,
) -> bool {
    match method {
        Integration::BackwardEuler => rate.spec_times(dt) == v.spec_minus(v1),
        Integration::Trapezoidal => rate.spec_plus(dv1).spec_times(dt) == S::spec_int(
            2,
        ).spec_times(v.spec_minus(v1)),
        Integration::Gear2 => rate.spec_times(S::spec_int(2).spec_times(dt)) == S::spec_int(
            3,
        ).spec_times(v).spec_minus(S::spec_int(4).spec_times(v1)).spec_plus(v2),
    }
}

/// The rate that the coefficients of a step find for a value with a history.
pub open spec fn discrete_rate<S: Scalar>(
    method: Integration,
    k: IntegCoeffs<S>,
    v: S,
    v1: S,
    dv1: S,
    v2: S,
) -> S {
    k.g.spec_times(v).spec_minus(charge_history(method, k, v1, dv1, v2))
}

/// Two twos are four.
proof fn lemma_four<S: Scalar>()
    requires
        S::exact(),
    ensures
        S::spec_int(2).spec_times(S::spec_int(2)) == S::spec_int(4),
{
    let one = S::spec_int(1);
    let two = S::spec_int(2);
    S::integer_laws(1);
    S::integer_laws(2);
    S::integer_laws(3);
    S::laws(one, one, two);
    S::laws(one, two, two);
    S::laws(two, two, two);
    S::laws(two, one, one);
}

/// `(a / d) * v` taken `d` times.
proof fn lemma_undo<S: Scalar>(a: S, d: S, v: S)
    requires
        S::exact(),
        d != S::spec_zero(),
    ensures
        a.spec_over(d).spec_times(v).spec_times(d) == a.spec_times(v),
{
    let q = a.spec_over(d);
    S::laws(q, v, d);
    S::laws(v, d, d);
    S::laws(q, d, v);
    S::laws(a, d, d);
}

/// The coefficients of a step make each rule what it is called: backward Euler takes
/// the difference quotient, the trapezoidal rule the average of the rates at both
/// ends, and the second-order rule the parabola through three values.
pub proof fn law_coefficients_integrate<S: Scalar>(
    method: Integration,
    dt: S,
    v: S,
    v1: S,
    dv1: S,
    v2: S,
)
    requires
        S::exact(),
        dt != S::spec_zero(),
        S::spec_int(2) != S::spec_zero(),
    ensures
        integrates(
            method,
            dt,
            discrete_rate(method, step_coeffs(method, dt, false), v, v1, dv1, v2),
            v,
            v1,
            dv1,
            v2,
        ),
{
    broadcast use group_sums;

    let one = S::spec_int(1);
    let two = S::spec_int(2);
    let three = S::spec_int(3);
    let k = step_coeffs(method, dt, false);
    let h = charge_history(method, k, v1, dv1, v2);
    let rate = discrete_rate(method, k, v, v1, dv1, v2);
    let gv = k.g.spec_times(v);
    match method {
        Integration::BackwardEuler => {
            lemma_undo(one, dt, v);
            lemma_undo(one, dt, v1);
            S::laws(v, one, one);
            S::laws(one, v, one);
            S::laws(v1, one, one);
            S::laws(one, v1, one);
            lemma_distribute(gv, h, dt);
        },
        Integration::Trapezoidal => {
            lemma_undo(two, dt, v);
            lemma_undo(two, dt, v1);
            let gv1 = k.g.spec_times(v1);
            let s = seq![gv, gv1, dv1];
            lemma_same_terms(
                term(0).minus(term(1).plus(term(2))).plus(term(2)),
                term(0).minus(term(1)),
                s,
            );
            lemma_distribute(gv, gv1, dt);
            lemma_product(two, v, v1);
        },
        Integration::Gear2 => {
            lemma_four::<S>();
            let span = two.spec_times(dt);
            let (p, q) = (k.a1.spec_times(v1), k.a2.spec_times(v2));
            S::laws(two, dt, dt);
            S::laws(dt, two, dt);
            let halves = three.spec_over(two);
            lemma_undo(halves, dt, v);
            S::laws(gv, dt, two);
            assert(gv.spec_times(span) == halves.spec_times(v).spec_times(two));
            lemma_undo(three, two, v);
            let half = one.spec_over(two);
            lemma_undo(half, dt, v2);
            S::laws(q, dt, two);
            assert(q.spec_times(span) == half.spec_times(v2).spec_times(two));
            lemma_undo(one, two, v2);
            S::laws(v2, one, one);
            S::laws(one, v2, one);
            lemma_undo(two, dt, v1);
            S::laws(p, dt, two);
            S::laws(two, v1, two);
            S::laws(v1, two, two);
            S::laws(two, two, v1);
            S::laws(two.spec_times(v1), two, two);
            assert(p.spec_times(span) == S::spec_int(4).spec_times(v1));
            lemma_distribute(gv, p.spec_minus(q), span);
            lemma_distribute(p, q, span);
            let s = seq![gv.spec_times(span), p.spec_times(span), q.spec_times(span)];
            lemma_same_terms(
                term(0).minus(term(1).minus(term(2))),
                term(0).minus(term(1)).plus(term(2)),
                s,
            );
        },
    }
}

/// The first step of every rule is a backward Euler step from rest.
pub proof fn law_first_step_is_backward_euler<S: Scalar>(
    method: Integration,
    dt: S,
    v: S,
    v1: S,
    v2: S,
)
    requires
        S::exact(),
        dt != S::spec_zero(),
    ensures
        discrete_rate(
            method,
            step_coeffs(method, dt, true),
            v,
            v1,
            S::spec_zero(),
            v2,
        ).spec_times(dt) == v.spec_minus(v1),
{
    broadcast use group_sums;

    let one = S::spec_int(1);
    let zero = S::spec_zero();
    let k = step_coeffs(method, dt, true);
    let (gv, p) = (k.g.spec_times(v), k.g.spec_times(v1));
    lemma_undo(one, dt, v);
    lemma_undo(one, dt, v1);
    S::laws(v, one, one);
    S::laws(one, v, one);
    S::laws(v1, one, one);
    S::laws(one, v1, one);
    S::laws(p, zero, zero);
    S::laws(v2, zero, zero);
    S::laws(zero, v2, zero);
    lemma_same_terms(term(0).minus(Sum::Nothing), term(0), seq![p]);
    lemma_distribute(gv, p, dt);
}

/// The history of a capacitor and of an inductor is that of their charge and flux.
pub proof fn lemma_scaled_history<S: Scalar>(
    method: Integration,
    k: IntegCoeffs<S>,
    c: S,
    v: S,
    v1: S,
    dv1: S,
    v2: S,
)
    requires
        S::exact(),
    ensures
        k.g.spec_times(c).spec_times(v).spec_minus(capacitor_history(method, k, c, v1, dv1, v2))
            == c.spec_times(discrete_rate(method, k, v, v1, dv1, v2)),
        c.spec_times(k.g).spec_times(v).spec_minus(inductor_history(method, k, c, v1, dv1, v2))
            == c.spec_times(discrete_rate(method, k, v, v1, dv1, v2)),
{
    let h = charge_history(method, k, v1, dv1, v2);
    S::laws(k.g, c, v);
    S::laws(c, k.g, v);
    S::laws(c, k.g, v1);
    S::laws(k.g, c, v1);
    S::laws(c, k.a1, v1);
    S::laws(c, c, c);
    lemma_product(c, k.g.spec_times(v), h);
    lemma_product(c, k.g.spec_times(v1), dv1);
    assert(capacitor_history(method, k, c, v1, dv1, v2) == c.spec_times(h));
    assert(inductor_history(method, k, c, v1, dv1, v2) == c.spec_times(h));
}

} // verus!
