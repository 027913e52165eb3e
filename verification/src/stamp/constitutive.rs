//! What the stamps of the linear devices say of their currents and voltages.
use vstd::prelude::*;

use crate::circuit::{DeviceId, NodeId};
use crate::field::lemma_product;
use crate::options::SolverOptions;
use crate::scalar::Scalar;
use crate::stamp::context::{at, frac, step_coeffs, StampCtx};
use crate::stamp::kirchhoff::{
    drawn, law_a_branch_joins_its_nodes, law_a_conductance_obeys_ohm,
    law_a_current_leaves_and_enters, law_a_transconductance_is_controlled, lemma_drawn_sum,
    lemma_one, lemma_residual_g, lemma_residual_i, lemma_share, share,
};
use crate::stamp::linear::{
    capacitor_history, inductor_history, put_capacitor, put_cccs, put_ccvs, put_inductor, put_isource, put_mutuals, put_vccs, put_vcvs,
    put_vsource, resistance, short_free_conductance,
};
use crate::stamp::rules::{
    discrete_rate, integrates, law_coefficients_integrate, lemma_scaled_history,
};
use crate::stamp::tape::{put_g, put_i, put_incidence, put_pair, residual_after, Write};
use crate::terms::{group_sums, lemma_same_terms, term, Sum};

verus! {

/// A resistance of more than a microohm carries the current that drops the voltage
/// across it.
pub proof fn law_a_resistor_drops_its_voltage<S: Scalar>(r: S, v: S)
    requires
        S::exact(),
        frac::<S>(1, 1_000_000).spec_less(r),
        r != S::spec_zero(),
    ensures
        short_free_conductance(r).spec_times(v).spec_times(r) == v,
{
    let one = S::spec_int(1);
    let g = one.spec_over(r);
    S::laws(one, r, r);
    S::laws(g, v, r);
    S::laws(v, r, r);
    S::laws(g, r, v);
    S::laws(one, v, v);
    S::laws(v, one, one);
}

/// Whatever is below a microohm is taken for one: a zero or negative resistance is a
/// short.
pub proof fn law_a_short_is_a_microohm<S: Scalar>(r: S, v: S)
    requires
        S::exact(),
        !frac::<S>(1, 1_000_000).spec_less(r),
        frac::<S>(1, 1_000_000) != S::spec_zero(),
    ensures
        short_free_conductance(r).spec_times(v).spec_times(frac(1, 1_000_000)) == v,
{
    let one = S::spec_int(1);
    let m = frac::<S>(1, 1_000_000);
    let g = one.spec_over(m);
    S::laws(one, m, m);
    S::laws(g, v, m);
    S::laws(v, m, m);
    S::laws(g, m, v);
    S::laws(one, v, v);
    S::laws(v, one, one);
}

/// A resistance changes by its coefficient times itself per degree, and is the nominal
/// one at 27 degrees.
pub proof fn law_resistance_is_affine_in_temperature<S: Scalar>(
    ohms: S,
    tc: S,
    opts: &SolverOptions<S>,
)
    requires
        S::exact(),
        opts.effects.temperature,
    ensures
        resistance(ohms, Some(tc), opts).spec_minus(ohms) == ohms.spec_times(tc).spec_times(
            opts.model_temp.spec_minus(S::spec_int(27)),
        ),
        opts.model_temp == S::spec_int(27) ==> resistance(ohms, Some(tc), opts) == ohms,
{
    broadcast use group_sums;

    let one = S::spec_int(1);
    let rise = opts.model_temp.spec_minus(S::spec_int(27));
    let p = tc.spec_times(rise);
    lemma_product(ohms, one, p);
    S::laws(ohms, tc, rise);
    S::laws(ohms, one, one);
    let s = seq![ohms, ohms.spec_times(p), S::spec_int(27)];
    lemma_same_terms(term(0).plus(term(1)).minus(term(0)), term(1), s);
    lemma_same_terms(term(2).minus(term(2)), Sum::Nothing, s);
    S::laws(tc, tc, tc);
    S::laws(ohms, ohms, ohms);
}

/// In a step a capacitor carries its capacitance times the rate that the integration
/// rule finds for the voltage across it.
pub proof fn law_a_capacitor_carries_its_rate<S: Scalar>(
    ctx: &StampCtx<S>,
    id: DeviceId,
    a: NodeId,
    b: NodeId,
    c: S,
    ic: Option<S>,
    t: Seq<Write<S>>,
    x: Seq<S>,
    dt: S,
    r: int,
)
    requires
        S::exact(),
        dt != S::spec_zero(),
        S::spec_int(2) != S::spec_zero(),
        !ctx.dc,
        ctx.coeffs == step_coeffs(ctx.opts.integration, dt, false),
    ensures
        exists|rate: S|
            {
                &&& #[trigger] integrates(
                    ctx.opts.integration,
                    dt,
                    rate,
                    at(x, ctx.ix(a)).spec_minus(at(x, ctx.ix(b))),
                    ctx.state.x1@[id.0 as int],
                    ctx.state.dx1@[id.0 as int],
                    ctx.state.x2@[id.0 as int],
                )
                &&& residual_after(S::spec_zero(), put_capacitor(ctx, id, a, b, c, ic, t), x, r)
                    == residual_after(S::spec_zero(), t, x, r).spec_plus(
                    drawn(ctx.ix(a), ctx.ix(b), c.spec_times(rate), r),
                )
            },
{
    broadcast use group_sums;

    let zero = S::spec_zero();
    let (ai, bi) = (ctx.ix(a), ctx.ix(b));
    let d = id.0 as int;
    let (method, k) = (ctx.opts.integration, ctx.coeffs);
    let (v1, dv1, v2) = (ctx.state.x1@[d], ctx.state.dx1@[d], ctx.state.x2@[d]);
    let v = at(x, ai).spec_minus(at(x, bi));
    law_coefficients_integrate(method, dt, v, v1, dv1, v2);
    lemma_scaled_history(method, k, c, v, v1, dv1, v2);
    let g = k.g.spec_times(c);
    let h = capacitor_history(method, k, c, v1, dv1, v2);
    let t1 = put_pair(t, ai, bi, g);
    law_a_conductance_obeys_ohm(zero, t, x, r, ai, bi, g);
    law_a_current_leaves_and_enters(zero, t1, x, r, ai, bi, h.spec_negated());
    lemma_drawn_sum(ai, bi, g.spec_times(v), h.spec_negated(), r);
    let s = seq![
        residual_after(zero, t, x, r),
        drawn(ai, bi, g.spec_times(v), r),
        drawn(ai, bi, h.spec_negated(), r),
        g.spec_times(v),
        h,
    ];
    lemma_same_terms(
        term(0).plus(term(1)).plus(term(2)),
        term(0).plus(term(1).plus(term(2))),
        s,
    );
    lemma_same_terms(term(3).plus(term(4).negated()), term(3).minus(term(4)), s);
}

/// In an operating point a capacitor is open, unless it is held at its initial
/// condition: then it carries a thousand million siemens of what its voltage is off.
pub proof fn law_a_capacitor_is_open_at_rest<S: Scalar>(
    ctx: &StampCtx<S>,
    id: DeviceId,
    a: NodeId,
    b: NodeId,
    c: S,
    ic: Option<S>,
    t: Seq<Write<S>>,
    x: Seq<S>,
    r: int,
)
    requires
        S::exact(),
        ctx.dc,
    ensures
        !ctx.use_ic || ic is None ==> put_capacitor(ctx, id, a, b, c, ic, t) == t,
        ctx.use_ic && ic is Some ==> residual_after(
            S::spec_zero(),
            put_capacitor(ctx, id, a, b, c, ic, t),
            x,
            r,
        ) == residual_after(S::spec_zero(), t, x, r).spec_plus(
            drawn(
                ctx.ix(a),
                ctx.ix(b),
                S::spec_int(1_000_000_000).spec_times(
                    at(x, ctx.ix(a)).spec_minus(at(x, ctx.ix(b))).spec_minus(ic->0),
                ),
                r,
            ),
        ),
{
    broadcast use group_sums;

    if ctx.use_ic && ic is Some {
        let zero = S::spec_zero();
        let (ai, bi) = (ctx.ix(a), ctx.ix(b));
        let g = S::spec_int(1_000_000_000);
        let v = at(x, ai).spec_minus(at(x, bi));
        let w = ic->0;
        let i = g.spec_negated().spec_times(w);
        let t1 = put_pair(t, ai, bi, g);
        law_a_conductance_obeys_ohm(zero, t, x, r, ai, bi, g);
        law_a_current_leaves_and_enters(zero, t1, x, r, ai, bi, i);
        lemma_drawn_sum(ai, bi, g.spec_times(v), i, r);
        lemma_product(g, v, w);
        lemma_product(g, w, v);
        let s = seq![
            residual_after(zero, t, x, r),
            drawn(ai, bi, g.spec_times(v), r),
            drawn(ai, bi, i, r),
            g.spec_times(v),
            g.spec_times(w),
        ];
        lemma_same_terms(
            term(0).plus(term(1)).plus(term(2)),
            term(0).plus(term(1).plus(term(2))),
            s,
        );
        lemma_same_terms(term(3).plus(term(4).negated()), term(3).minus(term(4)), s);
    }
}

/// The nodes of an inductor see its branch current, whatever its own row says.
proof fn lemma_branch_current<S: Scalar>(
    t: Seq<Write<S>>,
    x: Seq<S>,
    a: Option<usize>,
    b: Option<usize>,
    br: Option<usize>,
    r: int,
)
    requires
        S::exact(),
    ensures
        ({
            let one = S::spec_int(1);
            let kcl = put_g(put_g(t, a, br, one), b, br, one.spec_negated());
            let row = put_g(put_g(kcl, br, a, one), br, b, one.spec_negated());
            let f = residual_after(S::spec_zero(), t, x, r).spec_plus(drawn(a, b, at(x, br), r));
            &&& residual_after(S::spec_zero(), kcl, x, r) == f
            &&& residual_after(S::spec_zero(), row, x, r) == f.spec_plus(
                share(br, at(x, a).spec_minus(at(x, b)), r),
            )
        }),
{
    broadcast use group_sums;

    let zero = S::spec_zero();
    let one = S::spec_int(1);
    let m = one.spec_negated();
    let (i, va, vb) = (at(x, br), at(x, a), at(x, b));
    let t1 = put_g(t, a, br, one);
    let t2 = put_g(t1, b, br, m);
    let t3 = put_g(t2, br, a, one);
    lemma_residual_g(zero, t, x, r, a, br, one);
    lemma_residual_g(zero, t1, x, r, b, br, m);
    lemma_residual_g(zero, t2, x, r, br, a, one);
    lemma_residual_g(zero, t3, x, r, br, b, m);
    lemma_one(i);
    lemma_one(va);
    lemma_one(vb);
    lemma_share(b, i, i, r);
    lemma_share(br, va, vb, r);
    lemma_share(br, vb, va, r);
    let s = seq![
        residual_after(zero, t, x, r),
        share(a, i, r),
        share(b, i, r),
        share(br, va, r),
        share(br, vb, r),
    ];
    let kcl = term(0).plus(term(1)).plus(term(2).negated());
    let drawn_from = term(0).plus(term(1).minus(term(2)));
    lemma_same_terms(kcl, drawn_from, s);
    lemma_same_terms(
        kcl.plus(term(3)).plus(term(4).negated()),
        drawn_from.plus(term(3).minus(term(4))),
        s,
    );
}

/// In a step the branch of an inductor carries one current from node to node, and its
/// row balances the voltage across it against its inductance times the rate that the
/// integration rule finds for that current. With nothing coupled to it, a solution of
/// the row has exactly that voltage.
pub proof fn law_an_inductor_drops_its_rate<S: Scalar>(
    ctx: &StampCtx<S>,
    id: DeviceId,
    a: NodeId,
    b: NodeId,
    l: S,
    ic: Option<S>,
    t: Seq<Write<S>>,
    x: Seq<S>,
    dt: S,
    r: int,
)
    requires
        S::exact(),
        dt != S::spec_zero(),
        S::spec_int(2) != S::spec_zero(),
        !ctx.dc,
        ctx.coeffs == step_coeffs(ctx.opts.integration, dt, false),
        ctx.layout.couplings@[id.0 as int]@.len() == 0,
    ensures
        exists|rate: S|
            {
                &&& #[trigger] integrates(
                    ctx.opts.integration,
                    dt,
                    rate,
                    at(x, ctx.br(id)),
                    ctx.state.x1@[id.0 as int],
                    ctx.state.dx1@[id.0 as int],
                    ctx.state.x2@[id.0 as int],
                )
                &&& residual_after(S::spec_zero(), put_inductor(ctx, id, a, b, l, ic, t), x, r)
                    == residual_after(S::spec_zero(), t, x, r).spec_plus(
                    drawn(ctx.ix(a), ctx.ix(b), at(x, ctx.br(id)), r),
                ).spec_plus(
                    share(
                        ctx.br(id),
                        at(x, ctx.ix(a)).spec_minus(at(x, ctx.ix(b))).spec_minus(
                            l.spec_times(rate),
                        ),
                        r,
                    ),
                )
            },
{
    let zero = S::spec_zero();
    let one = S::spec_int(1);
    let br = ctx.br(id);
    let (ai, bi) = (ctx.ix(a), ctx.ix(b));
    let d = id.0 as int;
    let (method, k) = (ctx.opts.integration, ctx.coeffs);
    let (v1, dv1, v2) = (ctx.state.x1@[d], ctx.state.dx1@[d], ctx.state.x2@[d]);
    let i = at(x, br);
    law_coefficients_integrate(method, dt, i, v1, dv1, v2);
    let kcl = put_g(put_g(t, ai, br, one), bi, br, one.spec_negated());
    let row = put_g(put_g(kcl, br, ai, one), br, bi, one.spec_negated());
    lemma_branch_current(t, x, ai, bi, br, r);
    lemma_winding(ctx, br, br, l, v1, dv1, v2, row, x, r);
    let rate = discrete_rate(method, k, i, v1, dv1, v2);
    let v = at(x, ai).spec_minus(at(x, bi));
    let f = residual_after(zero, t, x, r).spec_plus(drawn(ai, bi, i, r));
    lemma_share_taken(f, br, v, l.spec_times(rate), r);
    assert(integrates(method, dt, rate, i, v1, dv1, v2));
}

proof fn lemma_share_taken<S: Scalar>(f: S, br: Option<usize>, v: S, w: S, r: int)
    requires
        S::exact(),
    ensures
        f.spec_plus(share(br, v, r)).spec_minus(share(br, w, r)) == f.spec_plus(
            share(br, v.spec_minus(w), r),
        ),
{
    broadcast use group_sums;

    lemma_share(br, v, w, r);
    let s = seq![f, share(br, v, r), share(br, w, r)];
    lemma_same_terms(
        term(0).plus(term(1)).minus(term(2)),
        term(0).plus(term(1).minus(term(2))),
        s,
    );
}

/// What a winding's own or a coupled current induces is taken from the row.
proof fn lemma_winding<S: Scalar>(
    ctx: &StampCtx<S>,
    br: Option<usize>,
    of: Option<usize>,
    l: S,
    v1: S,
    dv1: S,
    v2: S,
    t: Seq<Write<S>>,
    x: Seq<S>,
    r: int,
)
    requires
        S::exact(),
    ensures
        ({
            let (method, k) = (ctx.opts.integration, ctx.coeffs);
            let h = inductor_history(method, k, l, v1, dv1, v2);
            let with = put_i(
                put_g(t, br, of, l.spec_times(k.g).spec_negated()),
                br,
                h.spec_negated(),
            );
            residual_after(S::spec_zero(), with, x, r) == residual_after(
                S::spec_zero(),
                t,
                x,
                r,
            ).spec_minus(
                share(
                    br,
                    l.spec_times(discrete_rate(method, k, at(x, of), v1, dv1, v2)),
                    r,
                ),
            )
        }),
{
    broadcast use group_sums;

    let zero = S::spec_zero();
    let (method, k) = (ctx.opts.integration, ctx.coeffs);
    let i = at(x, of);
    let h = inductor_history(method, k, l, v1, dv1, v2);
    let g = l.spec_times(k.g);
    lemma_scaled_history(method, k, l, i, v1, dv1, v2);
    lemma_residual_g(zero, t, x, r, br, of, g.spec_negated());
    lemma_residual_i(
        zero,
        put_g(t, br, of, g.spec_negated()),
        x,
        r,
        br,
        h.spec_negated(),
    );
    lemma_product(g, i, i);
    let p = g.spec_times(i);
    lemma_share(br, p, h, r);
    lemma_share(br, h, p, r);
    let s = seq![residual_after(zero, t, x, r), share(br, p, r), share(br, h, r)];
    lemma_same_terms(
        term(0).plus(term(1).negated()).minus(term(2).negated()),
        term(0).minus(term(1).minus(term(2))),
        s,
    );
}

/// Every further winding coupled to an inductor takes from its row the mutual
/// inductance times the rate of that winding's current.
pub proof fn law_a_coupled_winding_induces<S: Scalar>(
    ctx: &StampCtx<S>,
    br: Option<usize>,
    partners: Seq<(DeviceId, S)>,
    count: nat,
    t: Seq<Write<S>>,
    x: Seq<S>,
    dt: S,
    r: int,
)
    requires
        S::exact(),
        dt != S::spec_zero(),
        S::spec_int(2) != S::spec_zero(),
        ctx.coeffs == step_coeffs(ctx.opts.integration, dt, false),
        count < partners.len(),
    ensures
        exists|rate: S|
            {
                &&& #[trigger] integrates(
                    ctx.opts.integration,
                    dt,
                    rate,
                    at(x, ctx.br(partners[count as int].0)),
                    ctx.state.x1@[partners[count as int].0.0 as int],
                    ctx.state.dx1@[partners[count as int].0.0 as int],
                    ctx.state.x2@[partners[count as int].0.0 as int],
                )
                &&& residual_after(
                    S::spec_zero(),
                    put_mutuals(ctx, br, partners, count + 1, t),
                    x,
                    r,
                ) == residual_after(
                    S::spec_zero(),
                    put_mutuals(ctx, br, partners, count, t),
                    x,
                    r,
                ).spec_minus(share(br, partners[count as int].1.spec_times(rate), r))
            },
{
    let (pid, m) = partners[count as int];
    let d = pid.0 as int;
    let of = ctx.br(pid);
    let (method, k) = (ctx.opts.integration, ctx.coeffs);
    let (v1, dv1, v2) = (ctx.state.x1@[d], ctx.state.dx1@[d], ctx.state.x2@[d]);
    let before = put_mutuals(ctx, br, partners, count, t);
    lemma_winding(ctx, br, of, m, v1, dv1, v2, before, x, r);
    law_coefficients_integrate(method, dt, at(x, of), v1, dv1, v2);
    let rate = discrete_rate(method, k, at(x, of), v1, dv1, v2);
    assert(put_mutuals(ctx, br, partners, (count + 1 - 1) as nat, t) == before);
    assert(integrates(method, dt, rate, at(x, of), v1, dv1, v2));
}

/// In an operating point an inductor is a short, or carries its initial current where
/// it is held at that.
pub proof fn law_an_inductor_is_a_short_at_rest<S: Scalar>(
    ctx: &StampCtx<S>,
    id: DeviceId,
    a: NodeId,
    b: NodeId,
    l: S,
    ic: Option<S>,
    t: Seq<Write<S>>,
    x: Seq<S>,
    r: int,
)
    requires
        S::exact(),
        ctx.dc,
    ensures
        residual_after(S::spec_zero(), put_inductor(ctx, id, a, b, l, ic, t), x, r)
            == residual_after(S::spec_zero(), t, x, r).spec_plus(
            drawn(ctx.ix(a), ctx.ix(b), at(x, ctx.br(id)), r),
        ).spec_plus(
            share(
                ctx.br(id),
                if ctx.use_ic && ic is Some {
                    at(x, ctx.br(id)).spec_minus(ic->0)
                } else {
                    at(x, ctx.ix(a)).spec_minus(at(x, ctx.ix(b)))
                },
                r,
            ),
        ),
{
    let zero = S::spec_zero();
    let one = S::spec_int(1);
    let br = ctx.br(id);
    let (ai, bi) = (ctx.ix(a), ctx.ix(b));
    lemma_branch_current(t, x, ai, bi, br, r);
    if ctx.use_ic && ic is Some {
        let kcl = put_g(put_g(t, ai, br, one), bi, br, one.spec_negated());
        let i = at(x, br);
        lemma_residual_g(zero, kcl, x, r, br, br, one);
        lemma_residual_i(zero, put_g(kcl, br, br, one), x, r, br, ic->0);
        lemma_one(i);
        lemma_share_taken(residual_after(zero, kcl, x, r), br, i, ic->0, r);
    }
}

/// A voltage source carries one current from node to node, and its row holds what the
/// voltage across it is off its value.
pub proof fn law_a_voltage_source_holds_its_voltage<S: Scalar>(
    ctx: &StampCtx<S>,
    id: DeviceId,
    p: NodeId,
    n: NodeId,
    t: Seq<Write<S>>,
    x: Seq<S>,
    r: int,
)
    requires
        S::exact(),
    ensures
        residual_after(S::spec_zero(), put_vsource(ctx, id, p, n, t), x, r) == residual_after(
            S::spec_zero(),
            t,
            x,
            r,
        ).spec_plus(drawn(ctx.ix(p), ctx.ix(n), at(x, ctx.br(id)), r)).spec_plus(
            share(
                ctx.br(id),
                at(x, ctx.ix(p)).spec_minus(at(x, ctx.ix(n))).spec_minus(
                    if ctx.dc {
                        ctx.source_dc@[id.0 as int].spec_times(ctx.src_scale)
                    } else {
                        ctx.source_now@[id.0 as int].spec_times(ctx.src_scale)
                    },
                ),
                r,
            ),
        ),
{
    let zero = S::spec_zero();
    let br = ctx.br(id);
    let (pi, ni) = (ctx.ix(p), ctx.ix(n));
    let e = ctx.spec_source(id).spec_times(ctx.src_scale);
    law_a_branch_joins_its_nodes(zero, t, x, r, pi, ni, br);
    lemma_residual_i(zero, put_incidence(t, pi, ni, br), x, r, br, e);
    lemma_share_taken(
        residual_after(zero, t, x, r).spec_plus(drawn(pi, ni, at(x, br), r)),
        br,
        at(x, pi).spec_minus(at(x, ni)),
        e,
        r,
    );
}

/// A current source draws its value from its first node and delivers it at its second.
pub proof fn law_a_current_source_drives_its_current<S: Scalar>(
    ctx: &StampCtx<S>,
    id: DeviceId,
    p: NodeId,
    n: NodeId,
    t: Seq<Write<S>>,
    x: Seq<S>,
    r: int,
)
    requires
        S::exact(),
    ensures
        residual_after(S::spec_zero(), put_isource(ctx, id, p, n, t), x, r) == residual_after(
            S::spec_zero(),
            t,
            x,
            r,
        ).spec_plus(
            drawn(
                ctx.ix(p),
                ctx.ix(n),
                if ctx.dc {
                    ctx.source_dc@[id.0 as int].spec_times(ctx.src_scale)
                } else {
                    ctx.source_now@[id.0 as int].spec_times(ctx.src_scale)
                },
                r,
            ),
        ),
{
    let i = ctx.spec_source(id).spec_times(ctx.src_scale);
    law_a_current_leaves_and_enters(S::spec_zero(), t, x, r, ctx.ix(p), ctx.ix(n), i);
}

/// A voltage-controlled voltage source: its row holds what its voltage is off its gain
/// times the controlling one.
pub proof fn law_a_voltage_gain_is_held<S: Scalar>(
    ctx: &StampCtx<S>,
    id: DeviceId,
    p: NodeId,
    n: NodeId,
    cp: NodeId,
    cn: NodeId,
    gain: S,
    t: Seq<Write<S>>,
    x: Seq<S>,
    r: int,
)
    requires
        S::exact(),
    ensures
        residual_after(S::spec_zero(), put_vcvs(ctx, id, p, n, cp, cn, gain, t), x, r)
            == residual_after(S::spec_zero(), t, x, r).spec_plus(
            drawn(ctx.ix(p), ctx.ix(n), at(x, ctx.br(id)), r),
        ).spec_plus(
            share(
                ctx.br(id),
                at(x, ctx.ix(p)).spec_minus(at(x, ctx.ix(n))).spec_minus(
                    gain.spec_times(at(x, ctx.ix(cp)).spec_minus(at(x, ctx.ix(cn)))),
                ),
                r,
            ),
        ),
{
    broadcast use group_sums;

    let zero = S::spec_zero();
    let br = ctx.br(id);
    let (pi, ni, ci, di) = (ctx.ix(p), ctx.ix(n), ctx.ix(cp), ctx.ix(cn));
    let t1 = put_incidence(t, pi, ni, br);
    let m = gain.spec_negated();
    law_a_branch_joins_its_nodes(zero, t, x, r, pi, ni, br);
    lemma_residual_g(zero, t1, x, r, br, ci, m);
    lemma_residual_g(zero, put_g(t1, br, ci, m), x, r, br, di, gain);
    lemma_product(gain, at(x, ci), at(x, di));
    let (y, z) = (gain.spec_times(at(x, ci)), gain.spec_times(at(x, di)));
    let v = at(x, pi).spec_minus(at(x, ni));
    let f = residual_after(zero, t, x, r).spec_plus(drawn(pi, ni, at(x, br), r));
    lemma_share_taken(f, br, v, y.spec_minus(z), r);
    lemma_share(br, y, z, r);
    let s = seq![f, share(br, v, r), share(br, y, r), share(br, z, r)];
    lemma_same_terms(
        term(0).plus(term(1)).plus(term(2).negated()).plus(term(3)),
        term(0).plus(term(1)).minus(term(2).minus(term(3))),
        s,
    );
}

/// A voltage-controlled current source draws its transconductance times the
/// controlling voltage.
pub proof fn law_a_transconductor_drives_its_current<S: Scalar>(
    ctx: &StampCtx<S>,
    p: NodeId,
    n: NodeId,
    cp: NodeId,
    cn: NodeId,
    gm: S,
    t: Seq<Write<S>>,
    x: Seq<S>,
    r: int,
)
    requires
        S::exact(),
    ensures
        residual_after(S::spec_zero(), put_vccs(ctx, p, n, cp, cn, gm, t), x, r)
            == residual_after(S::spec_zero(), t, x, r).spec_plus(
            drawn(
                ctx.ix(p),
                ctx.ix(n),
                gm.spec_times(at(x, ctx.ix(cp)).spec_minus(at(x, ctx.ix(cn)))),
                r,
            ),
        ),
{
    law_a_transconductance_is_controlled(
        S::spec_zero(),
        t,
        x,
        r,
        ctx.ix(p),
        ctx.ix(n),
        ctx.ix(cp),
        ctx.ix(cn),
        gm,
    );
}

/// A current-controlled current source draws its gain times the controlling current.
pub proof fn law_a_current_gain_is_driven<S: Scalar>(
    ctx: &StampCtx<S>,
    p: NodeId,
    n: NodeId,
    ctrl: DeviceId,
    gain: S,
    t: Seq<Write<S>>,
    x: Seq<S>,
    r: int,
)
    requires
        S::exact(),
    ensures
        residual_after(S::spec_zero(), put_cccs(ctx, p, n, ctrl, gain, t), x, r)
            == residual_after(S::spec_zero(), t, x, r).spec_plus(
            drawn(ctx.ix(p), ctx.ix(n), gain.spec_times(at(x, ctx.br(ctrl))), r),
        ),
{
    broadcast use group_sums;

    let zero = S::spec_zero();
    let (pi, ni, cbr) = (ctx.ix(p), ctx.ix(n), ctx.br(ctrl));
    lemma_residual_g(zero, t, x, r, pi, cbr, gain);
    lemma_residual_g(zero, put_g(t, pi, cbr, gain), x, r, ni, cbr, gain.spec_negated());
    let i = at(x, cbr);
    lemma_product(gain, i, i);
    let y = gain.spec_times(i);
    lemma_share(ni, y, y, r);
    let s = seq![residual_after(zero, t, x, r), share(pi, y, r), share(ni, y, r)];
    lemma_same_terms(
        term(0).plus(term(1)).plus(term(2).negated()),
        term(0).plus(term(1).minus(term(2))),
        s,
    );
}

/// A current-controlled voltage source: its row holds what its voltage is off its
/// transresistance times the controlling current.
pub proof fn law_a_transresistance_is_held<S: Scalar>(
    ctx: &StampCtx<S>,
    id: DeviceId,
    p: NodeId,
    n: NodeId,
    ctrl: DeviceId,
    transres: S,
    t: Seq<Write<S>>,
    x: Seq<S>,
    r: int,
)
    requires
        S::exact(),
    ensures
        residual_after(S::spec_zero(), put_ccvs(ctx, id, p, n, ctrl, transres, t), x, r)
            == residual_after(S::spec_zero(), t, x, r).spec_plus(
            drawn(ctx.ix(p), ctx.ix(n), at(x, ctx.br(id)), r),
        ).spec_plus(
            share(
                ctx.br(id),
                at(x, ctx.ix(p)).spec_minus(at(x, ctx.ix(n))).spec_minus(
                    transres.spec_times(at(x, ctx.br(ctrl))),
                ),
                r,
            ),
        ),
{
    broadcast use group_sums;

    let zero = S::spec_zero();
    let (br, cbr) = (ctx.br(id), ctx.br(ctrl));
    let (pi, ni) = (ctx.ix(p), ctx.ix(n));
    law_a_branch_joins_its_nodes(zero, t, x, r, pi, ni, br);
    lemma_residual_g(
        zero,
        put_incidence(t, pi, ni, br),
        x,
        r,
        br,
        cbr,
        transres.spec_negated(),
    );
    let i = at(x, cbr);
    lemma_product(transres, i, i);
    let y = transres.spec_times(i);
    let v = at(x, pi).spec_minus(at(x, ni));
    let f = residual_after(zero, t, x, r).spec_plus(drawn(pi, ni, at(x, br), r));
    lemma_share(br, y, y, r);
    lemma_share_taken(f, br, v, y, r);
    let s = seq![f, share(br, v, r), share(br, y, r)];
    lemma_same_terms(
        term(0).plus(term(1)).plus(term(2).negated()),
        term(0).plus(term(1)).minus(term(2)),
        s,
    );
}

} // verus!
