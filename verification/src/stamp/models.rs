//! What holds between the numbers that a device model gives at one or two points.
use vstd::prelude::*;

use crate::circuit::{BjtModel, DiodeModel, MosfetModel};
use crate::field::{lemma_cancel_factor, lemma_distribute, lemma_product};
use crate::options::SolverOptions;
use crate::scalar::{ordered, Scalar};
use crate::stamp::bjt::{base_width, bjt_point, held_exp, transport};
use crate::stamp::context::{at_least, clamped, frac, no_more};
use crate::stamp::junction::{critical, depletion, diode_point, limited};
use crate::stamp::mosfet::{channel, gate_drain, gate_source, logistic, soft_plus, threshold};
use crate::terms::{group_sums, lemma_same_terms, term, Sum};

verus! {

/// A quotient times its divisor.
proof fn lemma_over_times<S: Scalar>(a: S, b: S)
    requires
        S::exact(),
        b != S::spec_zero(),
    ensures
        a.spec_over(b).spec_times(b) == a,
{
    S::laws(a, b, b);
}

/// The tangent of a transport current times its thermal voltage is the current over
/// its saturation value.
pub proof fn law_a_transport_tangent_is_its_slope<S: Scalar>(is: S, e: S, nvt: S)
    requires
        S::exact(),
        nvt != S::spec_zero(),
    ensures
        transport(is, e, nvt).1.spec_times(nvt) == transport(is, e, nvt).0.spec_plus(is),
{
    let one = S::spec_int(1);
    lemma_over_times(is.spec_times(e), nvt);
    lemma_product(is, e, one);
    S::laws(is, one, one);
    S::laws(is.spec_times(e), is, is);
}

/// The junction of a diode: its conductance times its thermal voltage is the current
/// over the saturation current where it conducts, the whole current past breakdown; in
/// between it leaks the saturation current, at a thousandth of the forward slope. With
/// an exponential that is one at zero it carries nothing at zero.
pub proof fn law_a_junction_conducts_along_its_slope<S: Scalar>(
    model: &DiodeModel<S>,
    vd: S,
    opts: &SolverOptions<S>,
)
    requires
        S::exact(),
        model.n.spec_times(opts.spec_vt()) != S::spec_zero(),
        S::spec_int(1000) != S::spec_zero(),
    ensures
        ({
            let is = if opts.effects.temperature {
                model.is_hot
            } else {
                model.is
            };
            let nvt = model.n.spec_times(opts.spec_vt());
            let (id, gd) = diode_point(model, vd, opts);
            let forward = S::spec_int(-3i64).spec_times(nvt).spec_at_most(vd);
            let broken = model.bv matches Some(bv) && !bv.spec_negated().spec_at_most(vd);
            &&& forward ==> gd.spec_times(nvt) == id.spec_plus(is)
            &&& !forward && !broken ==> id == is.spec_negated() && gd.spec_times(nvt).spec_times(
                S::spec_int(1000),
            ) == is
            &&& !forward && broken ==> gd.spec_times(nvt) == id.spec_negated()
            &&& forward && vd == S::spec_zero() && S::spec_zero().spec_exp() == S::spec_int(1)
                ==> id == S::spec_zero()
        }),
{
    broadcast use group_sums;

    let one = S::spec_int(1);
    let zero = S::spec_zero();
    let is = if opts.effects.temperature {
        model.is_hot
    } else {
        model.is
    };
    let nvt = model.n.spec_times(opts.spec_vt());
    let e = vd.spec_over(nvt).spec_exp();
    law_a_transport_tangent_is_its_slope(is, e, nvt);
    let q = is.spec_over(nvt);
    let m = frac::<S>(1, 1000);
    let k = S::spec_int(1000);
    lemma_over_times(is, nvt);
    lemma_over_times(one, k);
    S::laws(q, m, nvt);
    S::laws(m, nvt, nvt);
    S::laws(q, nvt, m);
    S::laws(is, m, k);
    S::laws(is, one, one);
    if vd == zero {
        lemma_over_times(zero, nvt);
        S::laws(nvt, zero, zero);
        S::laws(zero, nvt, nvt);
        lemma_cancel_factor(zero.spec_over(nvt), zero, nvt);
        lemma_same_terms(term(0).minus(term(0)), Sum::Nothing, seq![one]);
        S::laws(is, zero, zero);
    }
    if model.bv is Some {
        let bv = model.bv->0;
        let eb = no_more(
            bv.spec_plus(vd).spec_negated().spec_over(nvt),
            S::spec_int(40),
        ).spec_exp();
        lemma_over_times(is.spec_times(eb), nvt);
        lemma_product(is, eb, eb);
        lemma_same_terms(term(0).negated().negated(), term(0), seq![is.spec_times(eb)]);
    }
}

/// A junction whose iterate does not move is not limited, nor is one below its
/// critical voltage or one that moves by two thermal voltages at most: at a solution
/// the model is read at the voltage itself.
pub proof fn law_a_settled_junction_is_not_limited<S: Scalar>(vnew: S, vold: S, vt: S, vcrit: S)
    requires
        S::exact(),
    ensures
        !vcrit.spec_less(vnew) ==> limited(vnew, vold, vt, vcrit) == vnew,
        !S::spec_int(2).spec_times(vt).spec_less(vnew.spec_minus(vold).spec_abs()) ==> limited(
            vnew,
            vold,
            vt,
            vcrit,
        ) == vnew,
        vnew == vold && !S::spec_int(2).spec_times(vt).spec_less(S::spec_zero()) ==> limited(
            vnew,
            vold,
            vt,
            vcrit,
        ) == vnew,
{
    broadcast use group_sums;

    lemma_same_terms(term(0).minus(term(0)), Sum::Nothing, seq![vnew]);
    S::laws(vnew, vnew, vnew);
}

/// A forward junction that jumps is limited so that its exponential rises by the factor
/// that its tangent at the old voltage predicts, where the logarithm is undone by the
/// exponential.
pub proof fn law_a_limited_junction_follows_its_tangent<S: Scalar>(
    vnew: S,
    vold: S,
    vt: S,
    vcrit: S,
)
    requires
        S::exact(),
        vt != S::spec_zero(),
        forall|y: S| S::spec_zero().spec_less(y) ==> (#[trigger] y.spec_ln()).spec_exp() == y,
        vcrit.spec_less(vnew),
        S::spec_int(2).spec_times(vt).spec_less(vnew.spec_minus(vold).spec_abs()),
        S::spec_zero().spec_less(vold),
        S::spec_zero().spec_less(
            S::spec_int(1).spec_plus(vnew.spec_minus(vold).spec_over(vt)),
        ),
    ensures
        limited(vnew, vold, vt, vcrit).spec_minus(vold).spec_over(vt).spec_exp() == S::spec_int(
            1,
        ).spec_plus(vnew.spec_minus(vold).spec_over(vt)),
{
    broadcast use group_sums;

    let arg = S::spec_int(1).spec_plus(vnew.spec_minus(vold).spec_over(vt));
    let step = vt.spec_times(arg.spec_ln());
    lemma_same_terms(term(0).plus(term(1)).minus(term(0)), term(1), seq![vold, step]);
    S::laws(vt, arg.spec_ln(), vt);
    lemma_over_times(step, vt);
    lemma_cancel_factor(step.spec_over(vt), arg.spec_ln(), vt);
}

/// At its critical voltage the exponential of a junction is the thermal voltage over the
/// saturation current, by the root of two.
pub proof fn law_the_critical_voltage_bends_most<S: Scalar>(is: S, vt: S)
    requires
        S::exact(),
        vt != S::spec_zero(),
        S::spec_int(2).spec_sqrt().spec_times(is) != S::spec_zero(),
        forall|y: S| S::spec_zero().spec_less(y) ==> (#[trigger] y.spec_ln()).spec_exp() == y,
        S::spec_zero().spec_less(vt.spec_over(S::spec_int(2).spec_sqrt().spec_times(is))),
    ensures
        critical(is, vt).spec_over(vt).spec_exp().spec_times(
            S::spec_int(2).spec_sqrt().spec_times(is),
        ) == vt,
{
    let d = S::spec_int(2).spec_sqrt().spec_times(is);
    let l = vt.spec_over(d).spec_ln();
    S::laws(vt, l, vt);
    lemma_over_times(vt.spec_times(l), vt);
    lemma_cancel_factor(vt.spec_times(l).spec_over(vt), l, vt);
    lemma_over_times(vt, d);
}

/// A bipolar transistor at a point. Its terminal currents balance. Its base carries a
/// part of each transport current, which times the gain is that current; its collector
/// carries what is transported, scaled by the base width, less the reverse part. Each
/// base tangent times the gain is the tangent of the transport current.
pub proof fn law_a_transistor_shares_its_transport<S: Scalar>(
    model: &BjtModel<S>,
    opts: &SolverOptions<S>,
    vbe: S,
    vbc: S,
)
    requires
        S::exact(),
        model.bf != S::spec_zero(),
        model.br != S::spec_zero(),
        model.nf.spec_times(opts.spec_vt()) != S::spec_zero(),
        model.nr.spec_times(opts.spec_vt()) != S::spec_zero(),
    ensures
        ({
            let p = bjt_point(model, opts, vbe, vbc);
            &&& p.vbe == vbe && p.vbc == vbc
            &&& p.ic.spec_plus(p.ib).spec_plus(p.ie) == S::spec_zero()
            &&& p.ie == p.ic.spec_plus(p.ib).spec_negated()
            &&& exists|f: S, r: S|
                {
                    &&& #[trigger] f.spec_times(model.bf) == p.cf
                    &&& #[trigger] r.spec_times(model.br) == p.cr
                    &&& p.ib == f.spec_plus(r)
                    &&& p.ic.spec_plus(r) == p.cf.spec_minus(p.cr).spec_times(p.q1_inv)
                }
            &&& p.gpi.spec_times(model.bf) == p.gif
            &&& p.gmu.spec_times(model.br) == p.gir
        }),
{
    broadcast use group_sums;

    let p = bjt_point(model, opts, vbe, vbc);
    let (f, r) = (p.cf.spec_over(model.bf), p.cr.spec_over(model.br));
    lemma_over_times(p.cf, model.bf);
    lemma_over_times(p.cr, model.br);
    let ict = p.cf.spec_minus(p.cr).spec_times(p.q1_inv);
    lemma_same_terms(term(0).minus(term(1)).plus(term(1)), term(0), seq![ict, r]);
    lemma_same_terms(
        term(0).plus(term(1)).plus(term(0).plus(term(1)).negated()),
        Sum::Nothing,
        seq![p.ic, p.ib],
    );
    let nvf = model.nf.spec_times(opts.spec_vt());
    let nvr = model.nr.spec_times(opts.spec_vt());
    let ef = held_exp(vbe, nvf);
    let er = held_exp(vbc, nvr);
    let is = if opts.effects.temperature {
        model.is_hot
    } else {
        model.is
    };
    lemma_split_divisor(is.spec_times(ef), nvf, model.bf);
    lemma_split_divisor(is.spec_times(er), nvr, model.br);
    assert(f.spec_times(model.bf) == p.cf);
    assert(r.spec_times(model.br) == p.cr);
}

/// `(a / (b * c)) * c == a / b`.
proof fn lemma_split_divisor<S: Scalar>(a: S, b: S, c: S)
    requires
        S::exact(),
        b != S::spec_zero(),
        c != S::spec_zero(),
    ensures
        a.spec_over(b.spec_times(c)).spec_times(c) == a.spec_over(b),
{
    let bc = b.spec_times(c);
    S::laws(S::spec_zero(), c, c);
    S::laws(c, S::spec_zero(), c);
    if bc == S::spec_zero() {
        lemma_cancel_factor(b, S::spec_zero(), c);
    }
    let q = a.spec_over(bc);
    lemma_over_times(a, bc);
    lemma_over_times(a, b);
    S::laws(q, c, b);
    S::laws(c, b, b);
    lemma_cancel_factor(q.spec_times(c), a.spec_over(b), b);
}

/// The base-width factor is one at zero bias and without the effect, and falls by the
/// collector voltage over the forward Early voltage and the emitter voltage over the
/// reverse one.
pub proof fn law_the_base_narrows_with_bias<S: Scalar>(
    model: &BjtModel<S>,
    vbe: S,
    vbc: S,
    vaf: S,
    var: S,
)
    requires
        S::exact(),
        vaf != S::spec_zero(),
        var != S::spec_zero(),
        model.vaf == Some(vaf),
        model.var == Some(var),
    ensures
        base_width(model, false, vbe, vbc) == S::spec_int(1),
        S::spec_int(1).spec_minus(base_width(model, true, vbe, vbc)).spec_times(
            vaf.spec_times(var),
        ) == vbc.spec_times(var).spec_plus(vbe.spec_times(vaf)),
{
    broadcast use group_sums;

    let one = S::spec_int(1);
    let (c, e) = (vbc.spec_over(vaf), vbe.spec_over(var));
    let w = vaf.spec_times(var);
    let s = seq![one, c, e];
    lemma_same_terms(
        term(0).minus(term(0).minus(term(1)).minus(term(2))),
        term(1).plus(term(2)),
        s,
    );
    lemma_distribute(c, e, w);
    lemma_over_times(vbc, vaf);
    lemma_over_times(vbe, var);
    S::laws(c, vaf, var);
    S::laws(vaf, var, var);
    S::laws(e, var, vaf);
}

/// The channel in saturation: its current runs along its output conductance, so that
/// two drain voltages differ in current by that slope.
pub proof fn law_a_saturated_channel_follows_its_slope<S: Scalar>(
    beta: S,
    nvt: S,
    vov: S,
    v1: S,
    v2: S,
    lambda: S,
    gmin: S,
)
    requires
        S::exact(),
        !v1.spec_less(
            S::spec_int(2).spec_times(nvt).spec_times(
                soft_plus(vov.spec_over(S::spec_int(2).spec_times(nvt))),
            ),
        ),
        !v2.spec_less(
            S::spec_int(2).spec_times(nvt).spec_times(
                soft_plus(vov.spec_over(S::spec_int(2).spec_times(nvt))),
            ),
        ),
        channel(beta, nvt, vov, v1, lambda, gmin).2 != gmin,
    ensures
        channel(beta, nvt, vov, v2, lambda, gmin).0.spec_minus(
            channel(beta, nvt, vov, v1, lambda, gmin).0,
        ) == channel(beta, nvt, vov, v1, lambda, gmin).2.spec_times(v2.spec_minus(v1)),
{
    broadcast use group_sums;

    let one = S::spec_int(1);
    let two_nvt = S::spec_int(2).spec_times(nvt);
    let eff = two_nvt.spec_times(soft_plus(vov.spec_over(two_nvt)));
    let square = frac::<S>(1, 2).spec_times(beta).spec_times(eff).spec_times(eff);
    let (a, b) = (lambda.spec_times(v1), lambda.spec_times(v2));
    lemma_product(square, one, a);
    lemma_product(square, one, b);
    let s = seq![square.spec_times(one), square.spec_times(a), square.spec_times(b)];
    lemma_same_terms(
        term(0).plus(term(2)).minus(term(0).plus(term(1))),
        term(2).minus(term(1)),
        s,
    );
    S::laws(square, lambda, v1);
    S::laws(square, lambda, v2);
    lemma_product(square.spec_times(lambda), v2, v1);
}

/// The channel in its ohmic region, without channel-length modulation: the current
/// between two drain voltages grows by the average of the two slopes.
pub proof fn law_an_ohmic_channel_follows_its_slope<S: Scalar>(
    beta: S,
    nvt: S,
    vov: S,
    v1: S,
    v2: S,
    gmin: S,
)
    requires
        S::exact(),
        S::spec_int(2) != S::spec_zero(),
        v1.spec_less(
            S::spec_int(2).spec_times(nvt).spec_times(
                soft_plus(vov.spec_over(S::spec_int(2).spec_times(nvt))),
            ),
        ),
        v2.spec_less(
            S::spec_int(2).spec_times(nvt).spec_times(
                soft_plus(vov.spec_over(S::spec_int(2).spec_times(nvt))),
            ),
        ),
        channel(beta, nvt, vov, v1, S::spec_zero(), gmin).2 != gmin,
        channel(beta, nvt, vov, v2, S::spec_zero(), gmin).2 != gmin,
    ensures
        ({
            let (i1, m1, g1) = channel(beta, nvt, vov, v1, S::spec_zero(), gmin);
            let (i2, m2, g2) = channel(beta, nvt, vov, v2, S::spec_zero(), gmin);
            &&& S::spec_int(2).spec_times(i2.spec_minus(i1)) == g1.spec_plus(g2).spec_times(
                v2.spec_minus(v1),
            )
            &&& v1 == S::spec_zero() ==> i1 == S::spec_zero()
        }),
{
    broadcast use group_sums;

    let zero = S::spec_zero();
    let two = S::spec_int(2);
    let two_nvt = two.spec_times(nvt);
    let eff = two_nvt.spec_times(soft_plus(vov.spec_over(two_nvt)));
    lemma_ohmic_point(beta, nvt, vov, v1, gmin);
    lemma_ohmic_point(beta, nvt, vov, v2, gmin);
    let (i1, m1, g1) = channel(beta, nvt, vov, v1, zero, gmin);
    let (i2, m2, g2) = channel(beta, nvt, vov, v2, zero, gmin);
    let (h1, h2) = (eff.spec_minus(v1), eff.spec_minus(v2));
    let (e1, e2) = (eff.spec_times(v1), eff.spec_times(v2));
    let (q1, q2) = (v1.spec_times(v1), v2.spec_times(v2));
    let m = v1.spec_times(v2);
    lemma_product(beta, h1, h2);
    S::laws(beta, h1.spec_plus(h2), v2.spec_minus(v1));
    let d = v2.spec_minus(v1);
    lemma_distribute(h1, h2, d);
    lemma_product(h1, v2, v1);
    lemma_product(h2, v2, v1);
    lemma_distribute(eff, v1, v2);
    lemma_distribute(eff, v1, v1);
    lemma_distribute(eff, v2, v2);
    lemma_distribute(eff, v2, v1);
    S::laws(v2, v1, v1);
    let s = seq![e1, e2, q1, q2, m];
    lemma_same_terms(
        term(1).minus(term(4)).minus(term(0).minus(term(2))).plus(
            term(1).minus(term(3)).minus(term(0).minus(term(4))),
        ),
        term(1).plus(term(1)).minus(term(3)).minus(term(0).plus(term(0)).minus(term(2))),
        s,
    );
    let (c1, c2) = (
        e1.spec_plus(e1).spec_minus(q1),
        e2.spec_plus(e2).spec_minus(q2),
    );
    lemma_product(beta, c2, c1);
    lemma_product(two, i2, i1);
    if v1 == zero {
        S::laws(eff, zero, zero);
        S::laws(zero, zero, zero);
        lemma_same_terms(
            Sum::Nothing.plus(Sum::Nothing).minus(Sum::Nothing),
            Sum::Nothing,
            Seq::<S>::empty(),
        );
        S::laws(beta, zero, zero);
        S::laws(two, zero, zero);
        S::laws(two, i1, i1);
        S::laws(zero, two, two);
        S::laws(i1, two, two);
        lemma_cancel_factor(i1, zero, two);
    }
}

/// Twice the ohmic current, and its slope, without the factor of the modulation.
proof fn lemma_ohmic_point<S: Scalar>(beta: S, nvt: S, vov: S, v: S, gmin: S)
    requires
        S::exact(),
        S::spec_int(2) != S::spec_zero(),
        v.spec_less(
            S::spec_int(2).spec_times(nvt).spec_times(
                soft_plus(vov.spec_over(S::spec_int(2).spec_times(nvt))),
            ),
        ),
        channel(beta, nvt, vov, v, S::spec_zero(), gmin).2 != gmin,
    ensures
        ({
            let two_nvt = S::spec_int(2).spec_times(nvt);
            let eff = two_nvt.spec_times(soft_plus(vov.spec_over(two_nvt)));
            let (i, m, g) = channel(beta, nvt, vov, v, S::spec_zero(), gmin);
            let e = eff.spec_times(v);
            &&& S::spec_int(2).spec_times(i) == beta.spec_times(
                e.spec_plus(e).spec_minus(v.spec_times(v)),
            )
            &&& g == beta.spec_times(eff.spec_minus(v))
        }),
{
    let zero = S::spec_zero();
    let one = S::spec_int(1);
    let two = S::spec_int(2);
    let half = frac::<S>(1, 2);
    let two_nvt = two.spec_times(nvt);
    let eff = two_nvt.spec_times(soft_plus(vov.spec_over(two_nvt)));
    let e = eff.spec_times(v);
    let hv = half.spec_times(v);
    let core = e.spec_minus(hv.spec_times(v));
    S::laws(v, zero, zero);
    S::laws(zero, v, v);
    S::laws(one, zero, zero);
    let clm = one.spec_plus(zero.spec_times(v));
    assert(clm == one);
    let bc = beta.spec_times(core);
    S::laws(bc, one, one);
    let h = eff.spec_minus(v);
    S::laws(h, one, one);
    S::laws(core, zero, zero);
    S::laws(h, zero, zero);
    S::laws(two, beta, core);
    S::laws(beta, two, core);
    lemma_product(two, e, hv.spec_times(v));
    S::laws(half, v, v);
    S::laws(two, half, v.spec_times(v));
    S::laws(half, two, two);
    lemma_over_times(one, two);
    S::laws(v.spec_times(v), one, one);
    S::laws(one, v.spec_times(v), one);
    S::integer_laws(1);
    S::laws(one, one, e);
    S::laws(one, e, e);
    S::laws(e, one, one);
}

/// The threshold at no bulk bias is the nominal one, and with bulk bias it moves along
/// its slope: twice the root of the barrier times the slope is the body coefficient.
pub proof fn law_the_threshold_moves_with_the_bulk<S: Scalar>(model: &MosfetModel<S>, vbs: S)
    requires
        S::exact(),
        S::spec_int(2) != S::spec_zero(),
    ensures
        ({
            let phi = at_least(model.phi, frac(1, 1_000_000));
            let (vth, dvth) = threshold(model, vbs);
            let root = phi.spec_minus(vbs).spec_sqrt();
            &&& vbs == S::spec_zero() && S::spec_zero().spec_less(phi) ==> vth == model.vto
            &&& S::spec_zero().spec_less(phi.spec_minus(vbs)) && frac::<S>(1, 1000).spec_times(
                phi.spec_sqrt(),
            ).spec_less(root) && root != S::spec_zero() ==> {
                &&& dvth.spec_times(S::spec_int(2).spec_times(root)) == model.gamma.spec_negated()
                &&& vth.spec_minus(model.vto) == model.gamma.spec_times(
                    root.spec_minus(phi.spec_sqrt()),
                )
            }
            &&& !S::spec_zero().spec_less(phi.spec_minus(vbs)) ==> dvth == S::spec_zero()
        }),
{
    broadcast use group_sums;

    let zero = S::spec_zero();
    let two = S::spec_int(2);
    let phi = at_least(model.phi, frac(1, 1_000_000));
    let root = phi.spec_minus(vbs).spec_sqrt();
    lemma_same_terms(term(0).minus(Sum::Nothing), term(0), seq![phi]);
    lemma_same_terms(term(0).minus(term(0)), Sum::Nothing, seq![phi.spec_sqrt()]);
    S::laws(model.gamma, zero, zero);
    S::laws(model.vto, zero, zero);
    let rise = model.gamma.spec_times(root.spec_minus(phi.spec_sqrt()));
    lemma_same_terms(term(0).plus(term(1)).minus(term(0)), term(1), seq![model.vto, rise]);
    if root != zero {
        let d = two.spec_times(root);
        S::laws(two, root, root);
        S::laws(root, zero, zero);
        S::laws(zero, root, root);
        if d == zero {
            lemma_cancel_factor(two, zero, root);
        }
        lemma_over_times(model.gamma.spec_negated(), d);
    }
}

/// In saturation the transconductance times the effective overdrive is twice the
/// current, by the slope of the overdrive.
pub proof fn law_a_saturated_channel_is_square<S: Scalar>(
    beta: S,
    nvt: S,
    vov: S,
    vds: S,
    lambda: S,
    gmin: S,
)
    requires
        S::exact(),
        S::spec_int(2) != S::spec_zero(),
        !vds.spec_less(
            S::spec_int(2).spec_times(nvt).spec_times(
                soft_plus(vov.spec_over(S::spec_int(2).spec_times(nvt))),
            ),
        ),
        channel(beta, nvt, vov, vds, lambda, gmin).1 != gmin,
    ensures
        ({
            let u = vov.spec_over(S::spec_int(2).spec_times(nvt));
            let eff = S::spec_int(2).spec_times(nvt).spec_times(soft_plus(u));
            let (i, gm, gds) = channel(beta, nvt, vov, vds, lambda, gmin);
            gm.spec_times(eff) == S::spec_int(2).spec_times(i).spec_times(logistic(u))
        }),
{
    let one = S::spec_int(1);
    let two = S::spec_int(2);
    let half = frac::<S>(1, 2);
    let two_nvt = two.spec_times(nvt);
    let u = vov.spec_over(two_nvt);
    let eff = two_nvt.spec_times(soft_plus(u));
    let slope = logistic(u);
    let clm = one.spec_plus(lambda.spec_times(vds));
    let (i, gm, gds) = channel(beta, nvt, vov, vds, lambda, gmin);
    let be = beta.spec_times(eff);
    let hb = half.spec_times(beta);
    let square = hb.spec_times(eff).spec_times(eff);
    S::laws(half, beta, eff);
    S::laws(half, be, eff);
    let bee = be.spec_times(eff);
    assert(square == half.spec_times(bee));
    S::laws(two, half, bee);
    S::laws(half, two, two);
    lemma_over_times(one, two);
    S::laws(one, bee, bee);
    S::laws(bee, one, one);
    assert(two.spec_times(square) == bee);
    S::laws(two, square, clm);
    assert(two.spec_times(i) == bee.spec_times(clm));
    let bc = be.spec_times(clm);
    S::laws(bc, slope, eff);
    S::laws(slope, eff, eff);
    S::laws(bc, eff, slope);
    S::laws(be, clm, eff);
    S::laws(clm, eff, eff);
    S::laws(be, eff, clm);
}

/// Source and drain share one oxide: at one voltage the two oxide
/// charges make up the whole oxide over the threshold, and the two capacitances the
/// whole oxide capacitance.
pub proof fn law_the_oxide_is_shared<S: Scalar>(c1: S, c2: S, c_ox: S, vth: S, delta: S, v: S)
    requires
        S::exact(),
        S::spec_int(2) != S::spec_zero(),
        S::spec_zero().spec_less(c_ox),
    ensures
        ({
            let (qs, cs) = gate_source(c1, c_ox, vth, delta, v);
            let (qd, cd) = gate_drain(c2, c_ox, vth, delta, v);
            &&& qs.spec_plus(qd) == c1.spec_times(v).spec_plus(c2.spec_times(v)).spec_plus(
                c_ox.spec_times(v.spec_minus(vth)),
            )
            &&& cs.spec_plus(cd) == c1.spec_plus(c2).spec_plus(c_ox)
        }),
{
    broadcast use group_sums;

    let one = S::spec_int(1);
    let two = S::spec_int(2);
    let half = frac::<S>(1, 2);
    let over = v.spec_minus(vth);
    let u = over.spec_over(delta);
    let p = delta.spec_times(soft_plus(u));
    let l = logistic(u);
    let share = half.spec_times(c_ox);
    lemma_halved(c_ox, p);
    lemma_halved(c_ox, l);
    S::laws(share, delta, soft_plus(u));
    let (hp, hl) = (c_ox.spec_times(p.spec_over(two)), c_ox.spec_times(l.spec_over(two)));
    lemma_product(c_ox, over, p.spec_over(two));
    lemma_product(c_ox, one, l.spec_over(two));
    S::laws(c_ox, one, one);
    let s = seq![c1.spec_times(v), c2.spec_times(v), c_ox.spec_times(over), hp];
    lemma_same_terms(
        term(0).plus(term(2).minus(term(3))).plus(term(1).plus(term(3))),
        term(0).plus(term(1)).plus(term(2)),
        s,
    );
    let s = seq![c1, c2, c_ox, hl];
    lemma_same_terms(
        term(0).plus(term(2).minus(term(3))).plus(term(1).plus(term(3))),
        term(0).plus(term(1)).plus(term(2)),
        s,
    );
}

/// `(c / 2) * p == c * (p / 2)`.
proof fn lemma_halved<S: Scalar>(c: S, p: S)
    requires
        S::exact(),
        S::spec_int(2) != S::spec_zero(),
    ensures
        frac::<S>(1, 2).spec_times(c).spec_times(p) == c.spec_times(
            p.spec_over(S::spec_int(2)),
        ),
{
    let one = S::spec_int(1);
    let two = S::spec_int(2);
    let half = frac::<S>(1, 2);
    let q = p.spec_over(two);
    lemma_over_times(p, two);
    lemma_over_times(one, two);
    S::laws(half, c, p);
    S::laws(c, half, p);
    S::laws(half, p, two);
    S::laws(p, two, half);
    S::laws(two, half, p);
    S::laws(half, two, p);
    S::laws(one, p, p);
    S::laws(p, one, one);
    lemma_cancel_factor(half.spec_times(p), q, two);
}

/// A graded junction holds no charge at zero voltage and has its zero-bias capacitance
/// there, where every power and the logarithm of one are what they should be.
pub proof fn law_a_graded_junction_is_empty_at_zero<S: Scalar>(cjo: S, vj: S, m: S)
    requires
        S::exact(),
        vj != S::spec_zero(),
        S::spec_int(1).spec_minus(m) != S::spec_zero(),
        S::spec_zero().spec_less(frac::<S>(1, 2).spec_times(vj)),
        S::spec_int(1).spec_pow(m.spec_negated()) == S::spec_int(1),
        S::spec_int(1).spec_ln() == S::spec_zero(),
    ensures
        depletion(cjo, vj, m, S::spec_zero()) == (S::spec_zero(), cjo),
{
    broadcast use group_sums;

    let zero = S::spec_zero();
    let one = S::spec_int(1);
    lemma_over_times(zero, vj);
    S::laws(vj, zero, zero);
    S::laws(zero, vj, vj);
    lemma_cancel_factor(zero.spec_over(vj), zero, vj);
    lemma_same_terms(term(0).minus(Sum::Nothing), term(0), seq![one]);
    lemma_same_terms(term(0).minus(term(0)), Sum::Nothing, seq![one]);
    S::laws(one, one, one);
    S::laws(cjo, one, one);
    let w = cjo.spec_times(vj);
    S::laws(w, zero, zero);
    S::laws(cjo.spec_negated().spec_times(vj), zero, zero);
    let d = one.spec_minus(m);
    lemma_over_times(zero, d);
    S::laws(d, zero, zero);
    S::laws(zero, d, d);
    lemma_cancel_factor(zero.spec_over(d), zero, d);
}

/// Bounding a number: the result is the number or the bound, and is on the right side of
/// both.
pub proof fn law_bounds_hold<S: Scalar>(v: S, lo: S, hi: S)
    requires
        ordered::<S>(),
        v.spec_at_most(v),
        lo.spec_at_most(lo),
        hi.spec_at_most(hi),
        !hi.spec_less(lo),
    ensures
        at_least(v, lo) == v || at_least(v, lo) == lo,
        !at_least(v, lo).spec_less(v) && !at_least(v, lo).spec_less(lo),
        no_more(v, hi) == v || no_more(v, hi) == hi,
        !v.spec_less(no_more(v, hi)) && !hi.spec_less(no_more(v, hi)),
        !clamped(v, lo, hi).spec_less(lo) && !hi.spec_less(clamped(v, lo, hi)),
        !v.spec_less(lo) && !hi.spec_less(v) ==> clamped(v, lo, hi) == v,
        v.spec_less(lo) ==> clamped(v, lo, hi) == lo,
        hi.spec_less(v) ==> clamped(v, lo, hi) == hi,
{
}

/// The logistic of a number and of its negative make up one.
pub proof fn law_the_logistic_is_antisymmetric<S: Scalar>(x: S)
    requires
        S::exact(),
        S::spec_zero().spec_at_most(x),
        !S::spec_zero().spec_at_most(x.spec_negated()),
        S::spec_int(1).spec_plus(x.spec_negated().spec_exp()) != S::spec_zero(),
    ensures
        logistic(x).spec_plus(logistic(x.spec_negated())) == S::spec_int(1),
{
    let one = S::spec_int(1);
    let e = x.spec_negated().spec_exp();
    let d = one.spec_plus(e);
    let (p, q) = (one.spec_over(d), e.spec_over(d));
    lemma_over_times(one, d);
    lemma_over_times(e, d);
    lemma_distribute(p, q, d);
    S::laws(one, d, d);
    S::laws(d, one, one);
    lemma_cancel_factor(p.spec_plus(q), one, d);
}

/// The smoothed overdrive follows the exponential: its own exponential is one more than
/// that of the number, between the bounds where it is the number itself or vanishes with
/// it.
pub proof fn law_the_soft_overdrive_is_smooth<S: Scalar>(x: S)
    requires
        forall|y: S| (#[trigger] y.spec_ln_1p()).spec_exp() == S::spec_int(1).spec_plus(y),
    ensures
        S::spec_int(40).spec_less(x) ==> soft_plus(x) == x,
        !S::spec_int(40).spec_less(x) && x.spec_less(S::spec_int(-40i64)) ==> soft_plus(x)
            == x.spec_exp(),
        !S::spec_int(40).spec_less(x) && !x.spec_less(S::spec_int(-40i64)) ==> soft_plus(
            x,
        ).spec_exp() == S::spec_int(1).spec_plus(x.spec_exp()),
{
}

} // verus!
