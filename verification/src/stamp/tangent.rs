//! What the stamps of the junction devices say of their currents at the point they
//! are linearized at.
use vstd::prelude::*;

use crate::circuit::{BjtModel, DeviceId, DiodeModel, MosfetModel, NodeId, Polarity};
use crate::field::lemma_product;
use crate::scalar::Scalar;
use crate::stamp::bjt::{
    bjt_charges, bjt_is, bjt_point, bjt_voltages, charge_bc, charge_be, effective_nodes, held_exp,
    put_bjt, put_exact, put_folded, put_series, put_terminal, relocated, BjtPoint,
};
use crate::stamp::context::{at, at_least, frac, step_coeffs, StampCtx};
use crate::stamp::junction::{
    companion, critical, depletion, diode_charges, diode_is, diode_point, diode_voltage, put_diode,
    stored,
};
use crate::stamp::kirchhoff::{
    drawn, law_a_conductance_obeys_ohm, law_a_current_leaves_and_enters,
    law_a_transconductance_is_controlled, lemma_drawn_sum, lemma_one, lemma_residual_g,
    lemma_residual_i, lemma_share, share,
};
use crate::stamp::models::law_a_settled_junction_is_not_limited;
use crate::stamp::mosfet::{
    channel, channel_point, gate_drain, gate_source, put_body, put_channel, put_gate,
    put_intrinsic, threshold, transition, MosNodes,
};
use crate::stamp::rules::{discrete_rate, integrates, law_coefficients_integrate};
use crate::stamp::tape::{
    put_current, put_i, put_pair, put_transconductance, residual_after, Write,
};
use crate::system::SecondaryBank;
use crate::terms::{group_sums, lemma_same_terms, term, Sum};

verus! {

/// Whether minus one is the negative of one.
pub open spec fn signed_units<S: Scalar>() -> bool {
    S::spec_int(-1i64) == S::spec_int(1).spec_negated()
}

/// The sign of a polarity is undone by itself, keeps the numbers of an N device and
/// negates those of a P device.
pub proof fn lemma_sign<S: Scalar>(p: Polarity, v: S)
    requires
        S::exact(),
        signed_units::<S>(),
    ensures
        p.spec_sign::<S>().spec_times(p.spec_sign::<S>().spec_times(v)) == v,
        p is N ==> p.spec_sign::<S>().spec_times(v) == v,
        p is P ==> p.spec_sign::<S>().spec_times(v) == v.spec_negated(),
{
    broadcast use group_sums;

    lemma_one(v);
    lemma_one(v.spec_negated());
    lemma_same_terms(term(0).negated().negated(), term(0), seq![v]);
}

/// A tangent stands for its current: `g` of the voltage `u`, and the sign of what is
/// left of `i` when `g` of the folded voltage is taken.
proof fn lemma_folded_tangent<S: Scalar>(p: Polarity, g: S, i: S, u: S)
    requires
        S::exact(),
        signed_units::<S>(),
    ensures
        ({
            let sign = p.spec_sign::<S>();
            &&& sign.spec_times(i.spec_minus(g.spec_times(sign.spec_times(u)))) == sign.spec_times(
                i,
            ).spec_minus(g.spec_times(u))
            &&& sign.spec_times(g.spec_times(sign.spec_times(u))) == g.spec_times(u)
        }),
{
    let sign = p.spec_sign::<S>();
    let w = sign.spec_times(u);
    lemma_sign(p, u);
    lemma_product(sign, i, g.spec_times(w));
    S::laws(sign, g, w);
    S::laws(g, sign, w);
}

/// A folded conductance and current, linearized at the voltage across it, draw the
/// current they stand for, with the sign of the polarity.
pub proof fn law_a_folded_tangent_draws_its_current<S: Scalar>(
    a: Option<usize>,
    b: Option<usize>,
    g: S,
    i: S,
    p: Polarity,
    t: Seq<Write<S>>,
    x: Seq<S>,
    r: int,
)
    requires
        S::exact(),
        signed_units::<S>(),
    ensures
        ({
            let sign = p.spec_sign::<S>();
            let v = sign.spec_times(at(x, a).spec_minus(at(x, b)));
            residual_after(
                S::spec_zero(),
                put_folded(a, b, (g, i.spec_minus(g.spec_times(v))), sign, t),
                x,
                r,
            ) == residual_after(S::spec_zero(), t, x, r).spec_plus(
                drawn(
                    a,
                    b,
                    if p is N {
                        i
                    } else {
                        i.spec_negated()
                    },
                    r,
                ),
            )
        }),
{
    broadcast use group_sums;

    let zero = S::spec_zero();
    let sign = p.spec_sign::<S>();
    let u = at(x, a).spec_minus(at(x, b));
    let rest = i.spec_minus(g.spec_times(sign.spec_times(u)));
    let signed = sign.spec_times(rest);
    lemma_product(sign, rest, rest);
    lemma_sign(p, i);
    lemma_folded_tangent(p, g, i, u);
    let t1 = put_pair(t, a, b, g);
    assert(put_folded(a, b, (g, rest), sign, t) == put_current(t1, a, b, signed));
    law_a_conductance_obeys_ohm(zero, t, x, r, a, b, g);
    law_a_current_leaves_and_enters(zero, t1, x, r, a, b, signed);
    let gu = g.spec_times(u);
    lemma_drawn_sum(a, b, sign.spec_times(i), gu, r);
    let s = seq![
        residual_after(zero, t, x, r),
        drawn(a, b, gu, r),
        drawn(a, b, sign.spec_times(i), r),
    ];
    lemma_same_terms(
        term(0).plus(term(1)).plus(term(2).minus(term(1))),
        term(0).plus(term(2)),
        s,
    );
}

/// The companion of a charge, linearized at its voltage, stands for the rate that the
/// integration rule finds for the charge.
pub proof fn law_a_companion_stands_for_the_charging_current<S: Scalar>(
    ctx: &StampCtx<S>,
    q: S,
    c: S,
    v: S,
    x1: S,
    dx1: S,
    x2: S,
    dt: S,
)
    requires
        S::exact(),
        dt != S::spec_zero(),
        S::spec_int(2) != S::spec_zero(),
        ctx.coeffs == step_coeffs(ctx.opts.integration, dt, false),
    ensures
        ({
            let (g, i) = companion(ctx, q, c, v, x1, dx1, x2);
            &&& g == ctx.coeffs.g.spec_times(c)
            &&& integrates(
                ctx.opts.integration,
                dt,
                g.spec_times(v).spec_plus(i),
                q,
                x1,
                dx1,
                x2,
            )
            &&& i == g.spec_times(v).spec_plus(i).spec_minus(g.spec_times(v))
        }),
{
    broadcast use group_sums;

    let (method, k) = (ctx.opts.integration, ctx.coeffs);
    law_coefficients_integrate(method, dt, q, x1, dx1, x2);
    let rate = discrete_rate(method, k, q, x1, dx1, x2);
    let gv = k.g.spec_times(c).spec_times(v);
    let (g, i) = companion(ctx, q, c, v, x1, dx1, x2);
    let s = seq![rate, gv, i];
    lemma_same_terms(term(1).plus(term(0).minus(term(1))), term(0), s);
    lemma_same_terms(term(1).plus(term(2)).minus(term(1)), term(2), s);
}

/// The series resistance of a terminal drops the voltage to the unknown behind it;
/// where it is not modelled the unused unknown is pinned to zero.
pub proof fn law_a_series_resistance_drops_its_voltage<S: Scalar>(
    outer: Option<usize>,
    inner: Option<usize>,
    ohms: S,
    on: bool,
    t: Seq<Write<S>>,
    x: Seq<S>,
    r: int,
)
    requires
        S::exact(),
        ohms != S::spec_zero(),
    ensures
        inner is None ==> put_series(outer, inner, ohms, on, t) == t,
        inner is Some && on ==> exists|i: S|
            {
                &&& #[trigger] i.spec_times(ohms) == at(x, outer).spec_minus(at(x, inner))
                &&& residual_after(
                    S::spec_zero(),
                    put_series(outer, inner, ohms, on, t),
                    x,
                    r,
                ) == residual_after(S::spec_zero(), t, x, r).spec_plus(drawn(outer, inner, i, r))
            },
        inner is Some && !on ==> residual_after(
            S::spec_zero(),
            put_series(outer, inner, ohms, on, t),
            x,
            r,
        ) == residual_after(S::spec_zero(), t, x, r).spec_plus(share(inner, at(x, inner), r)),
{
    let zero = S::spec_zero();
    let one = S::spec_int(1);
    let g = one.spec_over(ohms);
    let v = at(x, outer).spec_minus(at(x, inner));
    law_a_conductance_obeys_ohm(zero, t, x, r, outer, inner, g);
    S::laws(one, ohms, ohms);
    S::laws(g, v, ohms);
    S::laws(v, ohms, ohms);
    S::laws(g, ohms, v);
    lemma_one(v);
    let i = g.spec_times(v);
    assert(i.spec_times(ohms) == v);
    lemma_residual_g(zero, t, x, r, inner, inner, one);
    lemma_one(at(x, inner));
}

/// The channel is read with the higher of drain and source as its drain, in the
/// polarity of the device: its voltages are those between the unknowns it sits on.
pub proof fn law_channel_voltages_are_the_unknowns<S: Scalar>(
    ctx: &StampCtx<S>,
    nodes: MosNodes,
    has_bulk: bool,
    model: &MosfetModel<S>,
)
    requires
        S::exact(),
        signed_units::<S>(),
    ensures
        ({
            let p = channel_point(ctx, nodes, has_bulk, model);
            let (d, g, s, b) = nodes;
            let x = ctx.x@;
            let hi = at(
                x,
                if p.swap {
                    s
                } else {
                    d
                },
            );
            let lo = at(
                x,
                if p.swap {
                    d
                } else {
                    s
                },
            );
            &&& model.polarity is N ==> {
                &&& p.swap == at(x, d).spec_less(at(x, s))
                &&& p.vds == hi.spec_minus(lo)
                &&& p.vgs == at(x, g).spec_minus(lo)
                &&& p.body_effect ==> p.vbs == at(x, b).spec_minus(lo)
            }
            &&& model.polarity is P ==> {
                &&& p.swap == at(x, d).spec_negated().spec_less(at(x, s).spec_negated())
                &&& p.vds == lo.spec_minus(hi)
                &&& p.vgs == lo.spec_minus(at(x, g))
                &&& p.body_effect ==> p.vbs == lo.spec_minus(at(x, b))
            }
            &&& p.body_effect == (has_bulk && S::spec_zero().spec_less(model.gamma))
        }),
{
    broadcast use group_sums;

    let p = channel_point(ctx, nodes, has_bulk, model);
    let x = ctx.x@;
    let (d, g, s, b) = (at(x, nodes.0), at(x, nodes.1), at(x, nodes.2), at(x, nodes.3));
    lemma_sign(model.polarity, d);
    lemma_sign(model.polarity, g);
    lemma_sign(model.polarity, s);
    lemma_sign(model.polarity, b);
    let v = seq![d, g, s, b];
    lemma_same_terms(term(0).negated().minus(term(2).negated()), term(2).minus(term(0)), v);
    lemma_same_terms(term(2).negated().minus(term(0).negated()), term(0).minus(term(2)), v);
    lemma_same_terms(term(1).negated().minus(term(0).negated()), term(0).minus(term(1)), v);
    lemma_same_terms(term(1).negated().minus(term(2).negated()), term(2).minus(term(1)), v);
    lemma_same_terms(term(3).negated().minus(term(0).negated()), term(0).minus(term(3)), v);
    lemma_same_terms(term(3).negated().minus(term(2).negated()), term(2).minus(term(3)), v);
}

/// The channel draws its current at the drain and delivers it at the source. In an N
/// device that is the channel current, reversed where drain and source exchanged
/// roles; in a P device it is the negative of that. The other unknowns carry nothing.
pub proof fn law_the_channel_draws_its_current<S: Scalar>(
    ctx: &StampCtx<S>,
    nodes: MosNodes,
    has_bulk: bool,
    model: &MosfetModel<S>,
    t: Seq<Write<S>>,
    r: int,
)
    requires
        S::exact(),
        signed_units::<S>(),
    ensures
        ({
            let p = channel_point(ctx, nodes, has_bulk, model);
            let forward = (model.polarity is N) != p.swap;
            residual_after(
                S::spec_zero(),
                put_channel(&p, nodes, model.polarity.spec_sign::<S>(), t),
                ctx.x@,
                r,
            ) == residual_after(S::spec_zero(), t, ctx.x@, r).spec_plus(
                drawn(
                    nodes.0,
                    nodes.2,
                    if forward {
                        p.ids
                    } else {
                        p.ids.spec_negated()
                    },
                    r,
                ),
            )
        }),
{
    broadcast use group_sums;

    let zero = S::spec_zero();
    let x = ctx.x@;
    let p = channel_point(ctx, nodes, has_bulk, model);
    let sign = model.polarity.spec_sign::<S>();
    let (di, gi, si, bi) = nodes;
    let dn = if p.swap {
        si
    } else {
        di
    };
    let sn = if p.swap {
        di
    } else {
        si
    };
    let (vd, vg, vs, vb) = (at(x, dn), at(x, gi), at(x, sn), at(x, bi));
    lemma_product(sign, vd, vs);
    lemma_product(sign, vg, vs);
    lemma_product(sign, vb, vs);
    let (a, b, c) = (
        p.gds.spec_times(vd.spec_minus(vs)),
        p.gm.spec_times(vg.spec_minus(vs)),
        p.gmb.spec_times(vb.spec_minus(vs)),
    );
    lemma_folded_tangent(model.polarity, p.gds, zero, vd.spec_minus(vs));
    lemma_folded_tangent(model.polarity, p.gm, zero, vg.spec_minus(vs));
    lemma_folded_tangent(model.polarity, p.gmb, zero, vb.spec_minus(vs));
    let (da, db, dc) = (
        p.gds.spec_times(p.vds),
        p.gm.spec_times(p.vgs),
        p.gmb.spec_times(p.vbs),
    );
    let i = sign.spec_times(p.ids);
    let base = p.ids.spec_minus(db).spec_minus(da);
    lemma_product(sign, p.ids, db);
    lemma_product(sign, p.ids.spec_minus(db), da);
    lemma_product(sign, base, dc);
    let t1 = put_pair(t, dn, sn, p.gds);
    let t2 = put_transconductance(t1, dn, sn, gi, sn, p.gm);
    let t3 = if p.body_effect {
        put_transconductance(t2, dn, sn, bi, sn, p.gmb)
    } else {
        t2
    };
    law_a_conductance_obeys_ohm(zero, t, x, r, dn, sn, p.gds);
    law_a_transconductance_is_controlled(zero, t1, x, r, dn, sn, gi, sn, p.gm);
    law_a_transconductance_is_controlled(zero, t2, x, r, dn, sn, bi, sn, p.gmb);
    let ieq = if p.body_effect {
        base.spec_minus(dc)
    } else {
        base
    };
    let signed = sign.spec_times(ieq);
    law_a_current_leaves_and_enters(zero, t3, x, r, dn, sn, signed);
    assert(put_channel(&p, nodes, sign, t) == put_current(t3, dn, sn, signed));
    lemma_drawn_sum(dn, sn, i, b, r);
    lemma_drawn_sum(dn, sn, i.spec_minus(b), a, r);
    lemma_drawn_sum(dn, sn, i.spec_minus(b).spec_minus(a), c, r);
    let s = seq![
        residual_after(zero, t, x, r),
        drawn(dn, sn, a, r),
        drawn(dn, sn, b, r),
        drawn(dn, sn, c, r),
        drawn(dn, sn, i, r),
    ];
    let tail = term(4).minus(term(2)).minus(term(1));
    lemma_same_terms(
        term(0).plus(term(1)).plus(term(2)).plus(tail),
        term(0).plus(term(4)),
        s,
    );
    lemma_same_terms(
        term(0).plus(term(1)).plus(term(2)).plus(term(3)).plus(tail.minus(term(3))),
        term(0).plus(term(4)),
        s,
    );
    lemma_sign(model.polarity, p.ids);
    lemma_drawn_sum(di, si, p.ids, p.ids, r);
    lemma_drawn_sum(di, si, p.ids.spec_negated(), p.ids, r);
    lemma_same_terms(term(0).negated().negated(), term(0), seq![p.ids]);
}

/// A P device at the negated voltages is an N device of the same parameters: its
/// channel is read at the same point.
pub proof fn law_a_p_channel_mirrors_an_n_channel<S: Scalar>(
    n_ctx: &StampCtx<S>,
    p_ctx: &StampCtx<S>,
    nodes: MosNodes,
    has_bulk: bool,
    n_model: MosfetModel<S>,
    p_model: MosfetModel<S>,
)
    requires
        S::exact(),
        signed_units::<S>(),
        n_model.polarity is N,
        p_model == (MosfetModel { polarity: Polarity::P, ..n_model }),
        p_ctx.opts == n_ctx.opts,
        forall|k: int| #[trigger] p_ctx.x@[k] == n_ctx.x@[k].spec_negated(),
    ensures
        channel_point(p_ctx, nodes, has_bulk, &p_model) == channel_point(
            n_ctx,
            nodes,
            has_bulk,
            &n_model,
        ),
{
    lemma_mirrored(n_ctx, p_ctx, nodes.0);
    lemma_mirrored(n_ctx, p_ctx, nodes.1);
    lemma_mirrored(n_ctx, p_ctx, nodes.2);
    lemma_mirrored(n_ctx, p_ctx, nodes.3);
}

proof fn lemma_mirrored<S: Scalar>(n_ctx: &StampCtx<S>, p_ctx: &StampCtx<S>, i: Option<usize>)
    requires
        S::exact(),
        signed_units::<S>(),
        forall|k: int| #[trigger] p_ctx.x@[k] == n_ctx.x@[k].spec_negated(),
    ensures
        Polarity::P.spec_sign::<S>().spec_times(at(p_ctx.x@, i))
            == Polarity::N.spec_sign::<S>().spec_times(at(n_ctx.x@, i)),
{
    broadcast use group_sums;

    lemma_sign(Polarity::P, at(p_ctx.x@, i));
    lemma_sign(Polarity::N, at(n_ctx.x@, i));
    lemma_same_terms(term(0).negated().negated(), term(0), seq![at(n_ctx.x@, i)]);
    lemma_same_terms(Sum::Nothing.negated(), Sum::Nothing, Seq::<S>::empty());
}

/// What a bipolar transistor draws at row `r`: its collector and base currents, with
/// the sign of the polarity, both delivered at the emitter.
pub open spec fn transistor_draws<S: Scalar>(
    p: Polarity,
    point: &BjtPoint<S>,
    nodes: (Option<usize>, Option<usize>, Option<usize>),
    r: int,
) -> S {
    drawn(
        nodes.0,
        nodes.2,
        if p is N {
            point.ic
        } else {
            point.ic.spec_negated()
        },
        r,
    ).spec_plus(
        drawn(
            nodes.1,
            nodes.2,
            if p is N {
                point.ib
            } else {
                point.ib.spec_negated()
            },
            r,
        ),
    )
}

/// Whether a transistor is linearized at the voltages between its unknowns, and its
/// emitter delivers what the other two draw.
pub open spec fn at_its_point<S: Scalar>(
    p: Polarity,
    point: &BjtPoint<S>,
    nodes: (Option<usize>, Option<usize>, Option<usize>),
    x: Seq<S>,
) -> bool {
    let sign = p.spec_sign::<S>();
    &&& point.vbe == sign.spec_times(at(x, nodes.1).spec_minus(at(x, nodes.2)))
    &&& point.vbc == sign.spec_times(at(x, nodes.1).spec_minus(at(x, nodes.0)))
    &&& point.ie == point.ic.spec_plus(point.ib).spec_negated()
}

/// A transistor behind series resistances draws its collector and base currents and
/// delivers both at its emitter.
pub proof fn law_the_exact_tangent_draws_its_currents<S: Scalar>(
    model: &BjtModel<S>,
    early_effect: bool,
    p: &BjtPoint<S>,
    nodes: (Option<usize>, Option<usize>, Option<usize>),
    t: Seq<Write<S>>,
    x: Seq<S>,
    r: int,
)
    requires
        S::exact(),
        signed_units::<S>(),
        at_its_point(model.polarity, p, nodes, x),
    ensures
        residual_after(S::spec_zero(), put_exact(model, early_effect, p, nodes, t), x, r)
            == residual_after(S::spec_zero(), t, x, r).spec_plus(
            transistor_draws(model.polarity, p, nodes, r),
        ),
{
    broadcast use group_sums;

    let zero = S::spec_zero();
    let (ci, bi, ei) = nodes;
    let sign = model.polarity.spec_sign::<S>();
    let free = early_effect && frac::<S>(1, 10).spec_less(p.early);
    let swing = p.cf.spec_minus(p.cr).spec_negated();
    let early_deriv = if free && model.vaf is Some {
        swing.spec_over(model.vaf->0)
    } else {
        zero
    };
    let var_deriv = if free && model.var is Some {
        swing.spec_over(model.var->0)
    } else {
        zero
    };
    let gc_be = p.gm.spec_plus(var_deriv);
    let gc_bc = p.gir.spec_negated().spec_times(p.q1_inv).spec_minus(p.gmu).spec_plus(early_deriv);
    let (be, bc) = (at(x, bi).spec_minus(at(x, ei)), at(x, bi).spec_minus(at(x, ci)));
    let t1 = put_transconductance(t, ci, ei, bi, ei, gc_be);
    let t2 = put_transconductance(t1, ci, ei, bi, ci, gc_bc);
    let t3 = put_transconductance(t2, bi, ei, bi, ei, p.gpi);
    let t4 = put_transconductance(t3, bi, ei, bi, ci, p.gmu);
    law_a_transconductance_is_controlled(zero, t, x, r, ci, ei, bi, ei, gc_be);
    law_a_transconductance_is_controlled(zero, t1, x, r, ci, ei, bi, ci, gc_bc);
    law_a_transconductance_is_controlled(zero, t2, x, r, bi, ei, bi, ei, p.gpi);
    law_a_transconductance_is_controlled(zero, t3, x, r, bi, ei, bi, ci, p.gmu);
    let (ic, ib) = (sign.spec_times(p.ic), sign.spec_times(p.ib));
    let (c1, c2) = (gc_be.spec_times(be), gc_bc.spec_times(bc));
    let (b1, b2) = (p.gpi.spec_times(be), p.gmu.spec_times(bc));
    lemma_two_folded(model.polarity, p.ic, gc_be, be, gc_bc, bc);
    lemma_two_folded(model.polarity, p.ib, p.gpi, be, p.gmu, bc);
    let ic_eq = ic.spec_minus(c1.spec_plus(c2));
    let ib_eq = ib.spec_minus(b1.spec_plus(b2));
    let t5 = put_i(t4, ci, ic_eq.spec_negated());
    let t6 = put_i(t5, bi, ib_eq.spec_negated());
    lemma_residual_i(zero, t4, x, r, ci, ic_eq.spec_negated());
    lemma_residual_i(zero, t5, x, r, bi, ib_eq.spec_negated());
    lemma_residual_i(zero, t6, x, r, ei, ic_eq.spec_plus(ib_eq));
    lemma_share(ci, ic_eq, ic_eq, r);
    lemma_share(bi, ib_eq, ib_eq, r);
    lemma_share(ei, ic_eq, ib_eq, r);
    let f = residual_after(zero, t, x, r);
    let s = seq![
        residual_after(zero, t4, x, r),
        share(ci, ic_eq, r),
        share(bi, ib_eq, r),
        share(ei, ic_eq, r),
        share(ei, ib_eq, r),
    ];
    lemma_same_terms(
        term(0).minus(term(1).negated()).minus(term(2).negated()).minus(term(3).plus(term(4))),
        term(0).plus(term(1).minus(term(3))).plus(term(2).minus(term(4))),
        s,
    );
    lemma_drawn_sum(ci, ei, c1, c2, r);
    lemma_drawn_sum(ci, ei, ic, c1.spec_plus(c2), r);
    lemma_drawn_sum(bi, ei, b1, b2, r);
    lemma_drawn_sum(bi, ei, ib, b1.spec_plus(b2), r);
    let s = seq![
        f,
        drawn(ci, ei, c1, r),
        drawn(ci, ei, c2, r),
        drawn(bi, ei, b1, r),
        drawn(bi, ei, b2, r),
        drawn(ci, ei, ic, r),
        drawn(bi, ei, ib, r),
    ];
    lemma_same_terms(
        term(0).plus(term(1)).plus(term(2)).plus(term(3)).plus(term(4)).plus(
            term(5).minus(term(1).plus(term(2))),
        ).plus(term(6).minus(term(3).plus(term(4)))),
        term(0).plus(term(5).plus(term(6))),
        s,
    );
    lemma_sign(model.polarity, p.ic);
    lemma_sign(model.polarity, p.ib);
}

proof fn lemma_two_folded<S: Scalar>(p: Polarity, i: S, g: S, u: S, h: S, w: S)
    requires
        S::exact(),
        signed_units::<S>(),
    ensures
        ({
            let sign = p.spec_sign::<S>();
            sign.spec_times(
                i.spec_minus(
                    g.spec_times(sign.spec_times(u)).spec_plus(h.spec_times(sign.spec_times(w))),
                ),
            ) == sign.spec_times(i).spec_minus(g.spec_times(u).spec_plus(h.spec_times(w)))
        }),
{
    let sign = p.spec_sign::<S>();
    let (a, b) = (g.spec_times(sign.spec_times(u)), h.spec_times(sign.spec_times(w)));
    lemma_folded_tangent(p, g, i, u);
    lemma_folded_tangent(p, h, i, w);
    lemma_product(sign, a, b);
    lemma_product(sign, i, a.spec_plus(b));
}

/// A transistor on its terminals draws its collector and base currents and delivers
/// both at its emitter.
pub proof fn law_the_terminal_tangent_draws_its_currents<S: Scalar>(
    model: &BjtModel<S>,
    p: &BjtPoint<S>,
    nodes: (Option<usize>, Option<usize>, Option<usize>),
    t: Seq<Write<S>>,
    x: Seq<S>,
    r: int,
)
    requires
        S::exact(),
        signed_units::<S>(),
        at_its_point(model.polarity, p, nodes, x),
    ensures
        residual_after(S::spec_zero(), put_terminal(model, p, x, nodes, t), x, r)
            == residual_after(S::spec_zero(), t, x, r).spec_plus(
            transistor_draws(model.polarity, p, nodes, r),
        ),
{
    broadcast use group_sums;

    let zero = S::spec_zero();
    let (ci, bi, ei) = nodes;
    let sign = model.polarity.spec_sign::<S>();
    let (vc, vb, ve) = (at(x, ci), at(x, bi), at(x, ei));
    let (be, bc, ce) = (vb.spec_minus(ve), vb.spec_minus(vc), vc.spec_minus(ve));
    let t1 = put_pair(t, bi, ei, p.gpi);
    let t2 = put_pair(t1, bi, ci, p.gmu);
    let t3 = put_pair(t2, ci, ei, p.go);
    let t4 = put_transconductance(t3, ci, ei, bi, ei, p.gm);
    law_a_conductance_obeys_ohm(zero, t, x, r, bi, ei, p.gpi);
    law_a_conductance_obeys_ohm(zero, t1, x, r, bi, ci, p.gmu);
    law_a_conductance_obeys_ohm(zero, t2, x, r, ci, ei, p.go);
    law_a_transconductance_is_controlled(zero, t3, x, r, ci, ei, bi, ei, p.gm);
    let (a, b, c, d) = (
        p.gpi.spec_times(be),
        p.gmu.spec_times(bc),
        p.go.spec_times(ce),
        p.gm.spec_times(be),
    );
    let (ic, ib) = (sign.spec_times(p.ic), sign.spec_times(p.ib));
    lemma_folded_tangent(model.polarity, p.gpi, p.ib, be);
    lemma_folded_tangent(model.polarity, p.gmu, p.ib, bc);
    lemma_folded_tangent(model.polarity, p.go, p.ib, ce);
    lemma_folded_tangent(model.polarity, p.gm, p.ib, be);
    let (fa, fb, fc, fd) = (
        p.gpi.spec_times(p.vbe),
        p.gmu.spec_times(p.vbc),
        p.go.spec_times(sign.spec_times(ce)),
        p.gm.spec_times(p.vbe),
    );
    let ic_in = p.ic.spec_minus(fd.spec_plus(fc).spec_minus(fb));
    let ib_in = p.ib.spec_minus(fa.spec_plus(fb));
    let ie_in = p.ie.spec_plus(p.gm.spec_plus(p.gpi).spec_times(p.vbe)).spec_plus(fc);
    lemma_product(sign, fd, fc);
    lemma_product(sign, fd.spec_plus(fc), fb);
    lemma_product(sign, p.ic, fd.spec_plus(fc).spec_minus(fb));
    let ic_eq = sign.spec_times(ic_in);
    assert(ic_eq == ic.spec_minus(d.spec_plus(c).spec_minus(b)));
    lemma_two_folded(model.polarity, p.ib, p.gpi, be, p.gmu, bc);
    let ib_eq = sign.spec_times(ib_in);
    assert(ib_eq == ib.spec_minus(a.spec_plus(b)));
    S::laws(p.gm, p.gpi, p.vbe);
    lemma_product(sign, p.ic, p.ib);
    lemma_product(sign, p.ic.spec_plus(p.ib), p.ib);
    lemma_product(sign, fd, fa);
    lemma_product(sign, p.ie, fd.spec_plus(fa));
    lemma_product(sign, p.ie.spec_plus(fd.spec_plus(fa)), fc);
    let ie_eq = sign.spec_times(ie_in);
    assert(ie_eq == ic.spec_plus(ib).spec_negated().spec_plus(d.spec_plus(a)).spec_plus(c));
    let t5 = put_i(t4, ci, ic_eq.spec_negated());
    let t6 = put_i(t5, bi, ib_eq.spec_negated());
    lemma_residual_i(zero, t4, x, r, ci, ic_eq.spec_negated());
    lemma_residual_i(zero, t5, x, r, bi, ib_eq.spec_negated());
    lemma_residual_i(zero, t6, x, r, ei, ie_eq.spec_negated());
    lemma_share(ci, ic_eq, ic_eq, r);
    lemma_share(bi, ib_eq, ib_eq, r);
    lemma_share(ei, ie_eq, ie_eq, r);
    lemma_share(ci, d, c, r);
    lemma_share(ci, d.spec_plus(c), b, r);
    lemma_share(ci, ic, d.spec_plus(c).spec_minus(b), r);
    lemma_share(bi, a, b, r);
    lemma_share(bi, ib, a.spec_plus(b), r);
    lemma_share(ei, ic, ib, r);
    lemma_share(ei, ic.spec_plus(ib), ib, r);
    lemma_share(ei, d, a, r);
    lemma_share(ei, ic.spec_plus(ib).spec_negated(), d.spec_plus(a), r);
    lemma_share(ei, ic.spec_plus(ib).spec_negated().spec_plus(d.spec_plus(a)), c, r);
    let s = seq![
        residual_after(zero, t, x, r),
        share(ci, b, r),
        share(ci, c, r),
        share(ci, d, r),
        share(ci, ic, r),
        share(bi, a, r),
        share(bi, b, r),
        share(bi, ib, r),
        share(ei, a, r),
        share(ei, c, r),
        share(ei, d, r),
        share(ei, ic, r),
        share(ei, ib, r),
    ];
    let pairs = term(0).plus(term(5).minus(term(8))).plus(term(6).minus(term(1))).plus(
        term(2).minus(term(9)),
    ).plus(term(3).minus(term(10)));
    let at_c = term(4).minus(term(3).plus(term(2)).minus(term(1)));
    let at_b = term(7).minus(term(5).plus(term(6)));
    let at_e = term(11).plus(term(12)).negated().plus(term(10).plus(term(8))).plus(term(9));
    lemma_same_terms(
        pairs.minus(at_c.negated()).minus(at_b.negated()).minus(at_e.negated()),
        term(0).plus(term(4).minus(term(11)).plus(term(7).minus(term(12)))),
        s,
    );
    lemma_sign(model.polarity, p.ic);
    lemma_sign(model.polarity, p.ib);
}

/// A diode whose iterate has settled is linearized at the voltage across it.
pub proof fn law_a_settled_diode_is_read_at_its_voltage<S: Scalar>(
    ctx: &StampCtx<S>,
    a: NodeId,
    k: NodeId,
    model: &DiodeModel<S>,
)
    requires
        S::exact(),
        !S::spec_zero().spec_less(ctx.branch_reg),
        ctx.x_prev@ == ctx.x@,
        !S::spec_int(2).spec_times(model.n.spec_times(ctx.opts.spec_vt())).spec_less(
            S::spec_zero(),
        ),
    ensures
        diode_voltage(ctx, a, k, model) == at(ctx.x@, ctx.ix(a)).spec_minus(
            at(ctx.x@, ctx.ix(k)),
        ),
{
    broadcast use group_sums;

    let nvt = model.n.spec_times(ctx.opts.spec_vt());
    let vc = critical(diode_is(model, ctx.opts), nvt);
    let raw = at(ctx.x@, ctx.ix(a)).spec_minus(at(ctx.x@, ctx.ix(k)));
    law_a_settled_junction_is_not_limited(raw, raw, nvt, vc);
    if model.bv is Some {
        let bv = model.bv->0;
        let mirrored = raw.spec_plus(bv).spec_negated();
        law_a_settled_junction_is_not_limited(mirrored, mirrored, nvt, vc);
        lemma_same_terms(
            term(0).plus(term(1)).negated().plus(term(1)).negated(),
            term(0),
            seq![raw, bv],
        );
    }
}

/// A diode linearized at the voltage across it draws its junction current from anode to
/// cathode, and in a step, where it stores charge, the rate of its charge with it.
pub proof fn law_a_diode_draws_its_current<S: Scalar>(
    ctx: &StampCtx<S>,
    id: DeviceId,
    a: NodeId,
    k: NodeId,
    model: &DiodeModel<S>,
    t: Seq<Write<S>>,
    dt: S,
    r: int,
) -> (rate: S)
    requires
        S::exact(),
        dt != S::spec_zero(),
        S::spec_int(2) != S::spec_zero(),
        ctx.coeffs == step_coeffs(ctx.opts.integration, dt, false),
        diode_voltage(ctx, a, k, model) == at(ctx.x@, ctx.ix(a)).spec_minus(
            at(ctx.x@, ctx.ix(k)),
        ),
    ensures
        ({
            let v = at(ctx.x@, ctx.ix(a)).spec_minus(at(ctx.x@, ctx.ix(k)));
            let (i, g) = diode_point(model, v, ctx.opts);
            let charging = !ctx.dc && diode_charges(model, &ctx.opts.effects);
            &&& integrates(
                ctx.opts.integration,
                dt,
                rate,
                stored(model.cjo, model.vj, model.m, model.tt, v, i, g).0,
                ctx.state.x1@[id.0 as int],
                ctx.state.dx1@[id.0 as int],
                ctx.state.x2@[id.0 as int],
            )
            &&& residual_after(S::spec_zero(), put_diode(ctx, id, a, k, model, t), ctx.x@, r)
                == residual_after(S::spec_zero(), t, ctx.x@, r).spec_plus(
                drawn(
                    ctx.ix(a),
                    ctx.ix(k),
                    if charging {
                        i.spec_plus(rate)
                    } else {
                        i
                    },
                    r,
                ),
            )
        }),
{
    broadcast use group_sums;

    let zero = S::spec_zero();
    let x = ctx.x@;
    let d = id.0 as int;
    let (ai, ki) = (ctx.ix(a), ctx.ix(k));
    let v = at(x, ai).spec_minus(at(x, ki));
    let (i, g) = diode_point(model, v, ctx.opts);
    let gd = at_least(g, ctx.opts.gmin);
    let rest = i.spec_minus(gd.spec_times(v));
    let t1 = put_pair(t, ai, ki, gd);
    let t2 = put_current(t1, ai, ki, rest);
    lemma_tangent_pair(ai, ki, gd, i, t, x, r);
    let (q, c) = stored(model.cjo, model.vj, model.m, model.tt, v, i, g);
    let (x1, dx1, x2) = (ctx.state.x1@[d], ctx.state.dx1@[d], ctx.state.x2@[d]);
    law_a_companion_stands_for_the_charging_current(ctx, q, c, v, x1, dx1, x2, dt);
    let (geq, ieq) = companion(ctx, q, c, v, x1, dx1, x2);
    let rate = geq.spec_times(v).spec_plus(ieq);
    lemma_tangent_pair(ai, ki, geq, rate, t2, x, r);
    lemma_drawn_sum(ai, ki, i, rate, r);
    let s = seq![
        residual_after(zero, t, x, r),
        drawn(ai, ki, i, r),
        drawn(ai, ki, rate, r),
    ];
    lemma_same_terms(
        term(0).plus(term(1)).plus(term(2)),
        term(0).plus(term(1).plus(term(2))),
        s,
    );
    rate
}

/// A conductance and what it leaves of a current at the voltage across it draw that
/// current.
proof fn lemma_tangent_pair<S: Scalar>(
    a: Option<usize>,
    b: Option<usize>,
    g: S,
    i: S,
    t: Seq<Write<S>>,
    x: Seq<S>,
    r: int,
)
    requires
        S::exact(),
    ensures
        ({
            let v = at(x, a).spec_minus(at(x, b));
            residual_after(
                S::spec_zero(),
                put_current(put_pair(t, a, b, g), a, b, i.spec_minus(g.spec_times(v))),
                x,
                r,
            ) == residual_after(S::spec_zero(), t, x, r).spec_plus(drawn(a, b, i, r))
        }),
{
    broadcast use group_sums;

    let zero = S::spec_zero();
    let v = at(x, a).spec_minus(at(x, b));
    let gv = g.spec_times(v);
    law_a_conductance_obeys_ohm(zero, t, x, r, a, b, g);
    law_a_current_leaves_and_enters(
        zero,
        put_pair(t, a, b, g),
        x,
        r,
        a,
        b,
        i.spec_minus(gv),
    );
    lemma_drawn_sum(a, b, i, gv, r);
    let s = seq![residual_after(zero, t, x, r), drawn(a, b, gv, r), drawn(a, b, i, r)];
    lemma_same_terms(
        term(0).plus(term(1)).plus(term(2).minus(term(1))),
        term(0).plus(term(2)),
        s,
    );
}

/// A bulk junction linearized at the voltage across it draws, from bulk to channel end,
/// the Shockley current of its saturation current and, in a step, the rate of its
/// depletion charge, both with the sign of the polarity.
pub proof fn law_a_bulk_junction_draws_its_current<S: Scalar>(
    ctx: &StampCtx<S>,
    id: DeviceId,
    model: &MosfetModel<S>,
    bi: Option<usize>,
    ti: Option<usize>,
    cap: S,
    bank: SecondaryBank<S>,
    t: Seq<Write<S>>,
    dt: S,
    r: int,
) -> (rate: S)
    requires
        S::exact(),
        signed_units::<S>(),
        dt != S::spec_zero(),
        S::spec_int(2) != S::spec_zero(),
        ctx.coeffs == step_coeffs(ctx.opts.integration, dt, false),
        ctx.x_prev@ == ctx.x@,
        !S::spec_int(2).spec_times(ctx.opts.spec_vt()).spec_less(S::spec_zero()),
        ti != bi,
    ensures
        ({
            let u = at(ctx.x@, bi).spec_minus(at(ctx.x@, ti));
            let v = if model.polarity is N {
                u
            } else {
                u.spec_negated()
            };
            let conducts = S::spec_zero().spec_less(model.body_is);
            let charging = !ctx.dc && ctx.opts.effects.junction_caps && S::spec_zero().spec_less(
                cap,
            );
            let i = model.body_is.spec_times(
                held_exp(v, ctx.opts.spec_vt()).spec_minus(S::spec_int(1)),
            );
            let along = if conducts {
                i
            } else {
                S::spec_zero()
            };
            let whole = if charging {
                along.spec_plus(rate)
            } else {
                along
            };
            &&& integrates(
                ctx.opts.integration,
                dt,
                rate,
                depletion(cap, model.pb, model.mj, v).0,
                bank.x1@[id.0 as int],
                bank.dx1@[id.0 as int],
                bank.x2@[id.0 as int],
            )
            &&& residual_after(
                S::spec_zero(),
                put_body(ctx, id, model, bi, ti, cap, bank, t),
                ctx.x@,
                r,
            ) == residual_after(S::spec_zero(), t, ctx.x@, r).spec_plus(
                drawn(
                    bi,
                    ti,
                    if model.polarity is N {
                        whole
                    } else {
                        whole.spec_negated()
                    },
                    r,
                ),
            )
        }),
{
    broadcast use group_sums;

    let zero = S::spec_zero();
    let x = ctx.x@;
    let d = id.0 as int;
    let vt = ctx.opts.spec_vt();
    let sign = model.polarity.spec_sign::<S>();
    let u = at(x, bi).spec_minus(at(x, ti));
    lemma_sign(model.polarity, u);
    let v = sign.spec_times(u);
    law_a_settled_junction_is_not_limited(v, v, vt, critical(model.body_is, vt));
    let conducts = zero.spec_less(model.body_is);
    let e = held_exp(v, vt);
    let gj = at_least(model.body_is.spec_times(e).spec_over(vt), ctx.opts.gmin);
    let i = model.body_is.spec_times(e.spec_minus(S::spec_int(1)));
    law_a_folded_tangent_draws_its_current(bi, ti, gj, i, model.polarity, t, x, r);
    let t1 = if conducts {
        put_folded(bi, ti, (gj, i.spec_minus(gj.spec_times(v))), sign, t)
    } else {
        t
    };
    let (q, c) = depletion(cap, model.pb, model.mj, v);
    let (x1, dx1, x2) = (bank.x1@[d], bank.dx1@[d], bank.x2@[d]);
    law_a_companion_stands_for_the_charging_current(ctx, q, c, v, x1, dx1, x2, dt);
    let (geq, ieq) = companion(ctx, q, c, v, x1, dx1, x2);
    let rate = geq.spec_times(v).spec_plus(ieq);
    law_a_folded_tangent_draws_its_current(bi, ti, geq, rate, model.polarity, t1, x, r);
    lemma_share(bi, i, rate, r);
    lemma_share(ti, i, rate, r);
    let f = residual_after(zero, t, x, r);
    lemma_drawn_sum(bi, ti, i, rate, r);
    lemma_drawn_sum(bi, ti, i.spec_plus(rate), rate, r);
    lemma_drawn_sum(bi, ti, rate, rate, r);
    let s = seq![f, drawn(bi, ti, i, r), drawn(bi, ti, rate, r), rate];
    lemma_same_terms(
        term(0).plus(term(1)).plus(term(2)),
        term(0).plus(term(1).plus(term(2))),
        s,
    );
    lemma_same_terms(
        term(0).plus(term(1).negated()).plus(term(2).negated()),
        term(0).plus(term(1).plus(term(2)).negated()),
        s,
    );
    lemma_same_terms(Sum::Nothing.plus(term(3)), term(3), s);
    lemma_same_terms(term(0).plus(Sum::Nothing.minus(Sum::Nothing)), term(0), s);
    lemma_same_terms(Sum::Nothing.negated(), Sum::Nothing, s);
    rate
}

/// The charges of the oxide are drawn at their common end and delivered at source and
/// drain, each at the rate that the integration rule finds for the charge at its own voltage.
pub proof fn law_the_gate_charges_its_ends<S: Scalar>(
    ctx: &StampCtx<S>,
    id: DeviceId,
    model: &MosfetModel<S>,
    di: Option<usize>,
    gi: Option<usize>,
    si: Option<usize>,
    t: Seq<Write<S>>,
    dt: S,
    r: int,
) -> (rates: (S, S))
    requires
        S::exact(),
        signed_units::<S>(),
        dt != S::spec_zero(),
        S::spec_int(2) != S::spec_zero(),
        ctx.coeffs == step_coeffs(ctx.opts.integration, dt, false),
    ensures
        ({
            let d = id.0 as int;
            let n = model.polarity is N;
            let (us, ud) = (
                at(ctx.x@, gi).spec_minus(at(ctx.x@, si)),
                at(ctx.x@, gi).spec_minus(at(ctx.x@, di)),
            );
            let (vgs, vgd) = if n {
                (us, ud)
            } else {
                (us.spec_negated(), ud.spec_negated())
            };
            let delta = transition(model, ctx.opts);
            let (bank, state) = (ctx.state.xb@[0], ctx.state);
            &&& integrates(
                ctx.opts.integration,
                dt,
                rates.0,
                gate_source(model.cgs_ov, model.c_ox, model.vto, delta, vgs).0,
                state.x1@[d],
                state.dx1@[d],
                state.x2@[d],
            )
            &&& integrates(
                ctx.opts.integration,
                dt,
                rates.1,
                gate_drain(model.cgd_ov, model.c_ox, model.vto, delta, vgd).0,
                bank.x1@[d],
                bank.dx1@[d],
                bank.x2@[d],
            )
            &&& residual_after(
                S::spec_zero(),
                put_gate(ctx, id, model, di, gi, si, t),
                ctx.x@,
                r,
            ) == residual_after(S::spec_zero(), t, ctx.x@, r).spec_plus(
                drawn(
                    gi,
                    si,
                    if n {
                        rates.0
                    } else {
                        rates.0.spec_negated()
                    },
                    r,
                ),
            ).spec_plus(
                drawn(
                    gi,
                    di,
                    if n {
                        rates.1
                    } else {
                        rates.1.spec_negated()
                    },
                    r,
                ),
            )
        }),
{
    let x = ctx.x@;
    let d = id.0 as int;
    let sign = model.polarity.spec_sign::<S>();
    let (us, ud) = (
        at(x, gi).spec_minus(at(x, si)),
        at(x, gi).spec_minus(at(x, di)),
    );
    lemma_sign(model.polarity, us);
    lemma_sign(model.polarity, ud);
    let (vgs, vgd) = (sign.spec_times(us), sign.spec_times(ud));
    let delta = transition(model, ctx.opts);
    let bank = ctx.state.xb@[0];
    let (qs, cs) = gate_source(model.cgs_ov, model.c_ox, model.vto, delta, vgs);
    let (qd, cd) = gate_drain(model.cgd_ov, model.c_ox, model.vto, delta, vgd);
    let (a1, a2, a3) = (ctx.state.x1@[d], ctx.state.dx1@[d], ctx.state.x2@[d]);
    let (b1, b2, b3) = (bank.x1@[d], bank.dx1@[d], bank.x2@[d]);
    law_a_companion_stands_for_the_charging_current(ctx, qs, cs, vgs, a1, a2, a3, dt);
    law_a_companion_stands_for_the_charging_current(ctx, qd, cd, vgd, b1, b2, b3, dt);
    let gs = companion(ctx, qs, cs, vgs, a1, a2, a3);
    let gd = companion(ctx, qd, cd, vgd, b1, b2, b3);
    let rs = gs.0.spec_times(vgs).spec_plus(gs.1);
    let rd = gd.0.spec_times(vgd).spec_plus(gd.1);
    let t1 = put_folded(gi, si, gs, sign, t);
    law_a_folded_tangent_draws_its_current(gi, si, gs.0, rs, model.polarity, t, x, r);
    law_a_folded_tangent_draws_its_current(gi, di, gd.0, rd, model.polarity, t1, x, r);
    assert(gs == (gs.0, rs.spec_minus(gs.0.spec_times(vgs))));
    assert(gd == (gd.0, rd.spec_minus(gd.0.spec_times(vgd))));
    (rs, rd)
}

/// A bipolar transistor that has settled draws its collector and base currents, both
/// delivered at its emitter, and in a step, where it stores charge, the rates of its two
/// junction charges: from base to emitter and from base to collector.
pub proof fn law_a_settled_transistor_draws_its_currents<S: Scalar>(
    ctx: &StampCtx<S>,
    id: DeviceId,
    c: NodeId,
    b: NodeId,
    e: NodeId,
    model: &BjtModel<S>,
    t: Seq<Write<S>>,
    dt: S,
    r: int,
) -> (rates: (S, S))
    requires
        S::exact(),
        signed_units::<S>(),
        dt != S::spec_zero(),
        S::spec_int(2) != S::spec_zero(),
        ctx.coeffs == step_coeffs(ctx.opts.integration, dt, false),
        ctx.x_prev@ == ctx.x@,
        !S::spec_int(2).spec_times(model.nf.spec_times(ctx.opts.spec_vt())).spec_less(
            S::spec_zero(),
        ),
        !S::spec_int(2).spec_times(model.nr.spec_times(ctx.opts.spec_vt())).spec_less(
            S::spec_zero(),
        ),
    ensures
        ({
            let d = id.0 as int;
            let x = ctx.x@;
            let n = model.polarity is N;
            let sign = model.polarity.spec_sign::<S>();
            let ints = ctx.layout.bjt_internal_of@[d]@;
            let on = ctx.opts.effects.series_resistance;
            let nodes = effective_nodes(ctx.layout, id, c, b, e, &ctx.opts.effects);
            let vbe = sign.spec_times(at(x, nodes.1).spec_minus(at(x, nodes.2)));
            let vbc = sign.spec_times(at(x, nodes.1).spec_minus(at(x, nodes.0)));
            let p = bjt_point(model, ctx.opts, vbe, vbc);
            let ohmic = put_series(
                ctx.ix(e),
                ints[2],
                model.re,
                on,
                put_series(
                    ctx.ix(b),
                    ints[1],
                    model.rb,
                    on,
                    put_series(ctx.ix(c), ints[0], model.rc, on, t),
                ),
            );
            let steady = residual_after(S::spec_zero(), ohmic, x, r).spec_plus(
                transistor_draws(model.polarity, &p, nodes, r),
            );
            let after = residual_after(S::spec_zero(), put_bjt(ctx, id, c, b, e, model, t), x, r);
            let bank = ctx.state.xb@[0];
            if ctx.dc || !bjt_charges(model, &ctx.opts.effects) {
                after == steady
            } else {
                &&& integrates(
                    ctx.opts.integration,
                    dt,
                    rates.0,
                    charge_be(model, vbe, p.cf, p.gif).0,
                    ctx.state.x1@[d],
                    ctx.state.dx1@[d],
                    ctx.state.x2@[d],
                )
                &&& integrates(
                    ctx.opts.integration,
                    dt,
                    rates.1,
                    charge_bc(model, vbc, p.cr, p.gir).0,
                    bank.x1@[d],
                    bank.dx1@[d],
                    bank.x2@[d],
                )
                &&& after == steady.spec_plus(
                    drawn(
                        nodes.1,
                        nodes.2,
                        if n {
                            rates.0
                        } else {
                            rates.0.spec_negated()
                        },
                        r,
                    ),
                ).spec_plus(
                    drawn(
                        nodes.1,
                        nodes.0,
                        if n {
                            rates.1
                        } else {
                            rates.1.spec_negated()
                        },
                        r,
                    ),
                )
            }
        }),
{
    let d = id.0 as int;
    let x = ctx.x@;
    let sign = model.polarity.spec_sign::<S>();
    let ints = ctx.layout.bjt_internal_of@[d]@;
    let on = ctx.opts.effects.series_resistance;
    let nodes = effective_nodes(ctx.layout, id, c, b, e, &ctx.opts.effects);
    let vbe = sign.spec_times(at(x, nodes.1).spec_minus(at(x, nodes.2)));
    let vbc = sign.spec_times(at(x, nodes.1).spec_minus(at(x, nodes.0)));
    let is = bjt_is(model, ctx.opts);
    let nvf = model.nf.spec_times(ctx.opts.spec_vt());
    let nvr = model.nr.spec_times(ctx.opts.spec_vt());
    law_a_settled_junction_is_not_limited(vbe, vbe, nvf, critical(is, nvf));
    law_a_settled_junction_is_not_limited(vbc, vbc, nvr, critical(is, nvr));
    assert(bjt_voltages(ctx, model, nodes) == (vbe, vbc));
    let p = bjt_point(model, ctx.opts, vbe, vbc);
    let t1 = put_series(ctx.ix(c), ints[0], model.rc, on, t);
    let t2 = put_series(ctx.ix(b), ints[1], model.rb, on, t1);
    let t3 = put_series(ctx.ix(e), ints[2], model.re, on, t2);
    law_the_exact_tangent_draws_its_currents(
        model,
        ctx.opts.effects.early_effect,
        &p,
        nodes,
        t3,
        x,
        r,
    );
    law_the_terminal_tangent_draws_its_currents(model, &p, nodes, t3, x, r);
    let t4 = if relocated(ctx, id) {
        put_exact(model, ctx.opts.effects.early_effect, &p, nodes, t3)
    } else {
        put_terminal(model, &p, x, nodes, t3)
    };
    let (qe, ce) = charge_be(model, vbe, p.cf, p.gif);
    let (qc, cc) = charge_bc(model, vbc, p.cr, p.gir);
    let bank = ctx.state.xb@[0];
    let (a1, a2, a3) = (ctx.state.x1@[d], ctx.state.dx1@[d], ctx.state.x2@[d]);
    let (b1, b2, b3) = (bank.x1@[d], bank.dx1@[d], bank.x2@[d]);
    law_a_companion_stands_for_the_charging_current(ctx, qe, ce, vbe, a1, a2, a3, dt);
    law_a_companion_stands_for_the_charging_current(ctx, qc, cc, vbc, b1, b2, b3, dt);
    let be = companion(ctx, qe, ce, vbe, a1, a2, a3);
    let bc = companion(ctx, qc, cc, vbc, b1, b2, b3);
    let re = be.0.spec_times(vbe).spec_plus(be.1);
    let rc = bc.0.spec_times(vbc).spec_plus(bc.1);
    let t5 = put_folded(nodes.1, nodes.2, be, sign, t4);
    law_a_folded_tangent_draws_its_current(nodes.1, nodes.2, be.0, re, model.polarity, t4, x, r);
    law_a_folded_tangent_draws_its_current(nodes.1, nodes.0, bc.0, rc, model.polarity, t5, x, r);
    assert(be == (be.0, re.spec_minus(be.0.spec_times(vbe))));
    assert(bc == (bc.0, rc.spec_minus(bc.0.spec_times(vbc))));
    (re, rc)
}

/// The drain junction of a MOS transistor lies between bulk and drain with the drain
/// capacitance and the source junction between bulk and source with the source
/// capacitance: each draws the Shockley current and the rate of its charge at its own
/// voltage, beside the channel.
pub proof fn law_a_transistor_has_its_own_bulk_junctions<S: Scalar>(
    ctx: &StampCtx<S>,
    id: DeviceId,
    nodes: MosNodes,
    has_bulk: bool,
    model: &MosfetModel<S>,
    t: Seq<Write<S>>,
    dt: S,
    r: int,
) -> (rates: (S, S))
    requires
        S::exact(),
        signed_units::<S>(),
        dt != S::spec_zero(),
        S::spec_int(2) != S::spec_zero(),
        ctx.coeffs == step_coeffs(ctx.opts.integration, dt, false),
        ctx.x_prev@ == ctx.x@,
        !S::spec_int(2).spec_times(ctx.opts.spec_vt()).spec_less(S::spec_zero()),
        nodes.3 != nodes.0,
        nodes.3 != nodes.2,
        model.body_diode,
        !model.gate_charge,
        S::spec_zero().spec_less(model.body_is),
        S::spec_zero().spec_less(model.cbd),
        S::spec_zero().spec_less(model.cbs),
        !ctx.dc && ctx.opts.effects.junction_caps,
    ensures
        ({
            let d = id.0 as int;
            let x = ctx.x@;
            let n = model.polarity is N;
            let (ud, us) = (
                at(x, nodes.3).spec_minus(at(x, nodes.0)),
                at(x, nodes.3).spec_minus(at(x, nodes.2)),
            );
            let (vd, vs) = if n {
                (ud, us)
            } else {
                (ud.spec_negated(), us.spec_negated())
            };
            let vt = ctx.opts.spec_vt();
            let one = S::spec_int(1);
            let jd = model.body_is.spec_times(held_exp(vd, vt).spec_minus(one)).spec_plus(
                rates.0,
            );
            let js = model.body_is.spec_times(held_exp(vs, vt).spec_minus(one)).spec_plus(
                rates.1,
            );
            let (bd, bs) = (ctx.state.xb@[1], ctx.state.xb@[2]);
            let p = channel_point(ctx, nodes, has_bulk, model);
            &&& integrates(
                ctx.opts.integration,
                dt,
                rates.0,
                depletion(model.cbd, model.pb, model.mj, vd).0,
                bd.x1@[d],
                bd.dx1@[d],
                bd.x2@[d],
            )
            &&& integrates(
                ctx.opts.integration,
                dt,
                rates.1,
                depletion(model.cbs, model.pb, model.mj, vs).0,
                bs.x1@[d],
                bs.dx1@[d],
                bs.x2@[d],
            )
            &&& residual_after(
                S::spec_zero(),
                put_intrinsic(ctx, id, nodes, has_bulk, model, t),
                x,
                r,
            ) == residual_after(S::spec_zero(), t, x, r).spec_plus(
                drawn(
                    nodes.0,
                    nodes.2,
                    if n != p.swap {
                        p.ids
                    } else {
                        p.ids.spec_negated()
                    },
                    r,
                ),
            ).spec_plus(
                drawn(
                    nodes.3,
                    nodes.0,
                    if n {
                        jd
                    } else {
                        jd.spec_negated()
                    },
                    r,
                ),
            ).spec_plus(
                drawn(
                    nodes.3,
                    nodes.2,
                    if n {
                        js
                    } else {
                        js.spec_negated()
                    },
                    r,
                ),
            )
        }),
{
    let sign = model.polarity.spec_sign::<S>();
    let (di, gi, si, bi) = nodes;
    let p = channel_point(ctx, nodes, has_bulk, model);
    let t1 = put_channel(&p, nodes, sign, t);
    law_the_channel_draws_its_current(ctx, nodes, has_bulk, model, t, r);
    let rd = law_a_bulk_junction_draws_its_current(
        ctx,
        id,
        model,
        bi,
        di,
        model.cbd,
        ctx.state.xb@[1],
        t1,
        dt,
        r,
    );
    let t2 = put_body(ctx, id, model, bi, di, model.cbd, ctx.state.xb@[1], t1);
    let rs = law_a_bulk_junction_draws_its_current(
        ctx,
        id,
        model,
        bi,
        si,
        model.cbs,
        ctx.state.xb@[2],
        t2,
        dt,
        r,
    );
    (rd, rs)
}

/// The channel is evaluated at its voltages over the threshold: the nominal one, or that
/// of the bulk voltage where the body effect is modelled, whose slope then gives the bulk
/// transconductance; with a slope factor of one at least, and with channel-length
/// modulation only where that is modelled.
pub proof fn law_the_channel_is_read_over_its_threshold<S: Scalar>(
    ctx: &StampCtx<S>,
    nodes: MosNodes,
    has_bulk: bool,
    model: &MosfetModel<S>,
    factor: S,
    lambda: S,
)
    requires
        S::exact(),
        factor == model.n_sub && S::spec_int(1).spec_less(model.n_sub) || factor == S::spec_int(1)
            && !S::spec_int(1).spec_less(model.n_sub),
        lambda == if ctx.opts.effects.early_effect {
            model.lambda
        } else {
            S::spec_zero()
        },
    ensures
        ({
            let p = channel_point(ctx, nodes, has_bulk, model);
            let vth = if p.body_effect {
                threshold(model, p.vbs).0
            } else {
                model.vto
            };
            let (i, gm, gds) = channel(
                model.beta,
                factor.spec_times(ctx.opts.spec_vt()),
                p.vgs.spec_minus(vth),
                p.vds,
                lambda,
                ctx.opts.gmin,
            );
            &&& p.ids == i && p.gm == gm && p.gds == gds
            &&& !p.body_effect ==> p.gmb == S::spec_zero()
            &&& p.body_effect ==> p.gmb.spec_plus(gm.spec_times(threshold(model, p.vbs).1))
                == S::spec_zero()
        }),
{
    broadcast use group_sums;

    let p = channel_point(ctx, nodes, has_bulk, model);
    let slope = threshold(model, p.vbs).1;
    lemma_product(p.gm, slope, slope);
    lemma_product(p.gm.spec_negated(), slope, slope);
    lemma_same_terms(
        term(0).negated().plus(term(0)),
        Sum::Nothing,
        seq![p.gm.spec_times(slope)],
    );
}

} // verus!
