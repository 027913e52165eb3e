//! What the stamps of switches, amplifiers, comparators and behavioral sources drive
//! at the iterate.
use vstd::prelude::*;

use crate::circuit::{BDep, BOutput, DeviceId, NodeId};
use crate::field::lemma_product;
use crate::options::SolverOptions;
use crate::scalar::{ordered, Scalar};
use crate::stamp::behavioral::{
    const_term, dep_column, probe_step, probed, put_behavioral, put_branch_partials,
    put_current_partials, quotient,
};
use crate::stamp::context::{at, frac, StampCtx};
use crate::stamp::kirchhoff::{
    drawn, law_a_branch_joins_its_nodes, law_a_conductance_obeys_ohm,
    law_a_current_leaves_and_enters, law_a_transconductance_is_controlled, lemma_drawn_sum,
    lemma_one, lemma_residual_g, lemma_residual_i, lemma_share, share,
};
use crate::stamp::switch::{
    band, maybe_ix, midpoint, put_comparator, put_coupled, put_opamp, put_output, put_vswitch,
    rail_conductance, winner,
};
use crate::stamp::tape::{
    put_current, put_g, put_incidence, put_pair, put_transconductance, residual_after, Write,
};
use crate::terms::{group_sums, lemma_same_terms, term, Sum};

verus! {

/// An output stage pulls its node towards its target with one siemens.
pub proof fn law_an_output_is_pulled_to_its_target<S: Scalar>(
    row: Option<usize>,
    target: S,
    t: Seq<Write<S>>,
    x: Seq<S>,
    r: int,
)
    requires
        S::exact(),
    ensures
        residual_after(S::spec_zero(), put_output(row, target, t), x, r) == residual_after(
            S::spec_zero(),
            t,
            x,
            r,
        ).spec_plus(share(row, at(x, row).spec_minus(target), r)),
{
    broadcast use group_sums;

    let zero = S::spec_zero();
    let one = S::spec_int(1);
    lemma_residual_g(zero, t, x, r, row, row, one);
    lemma_residual_i(zero, put_g(t, row, row, one), x, r, row, one.spec_times(target));
    lemma_one(at(x, row));
    lemma_one(target);
    lemma_share(row, at(x, row), target, r);
    let s = seq![
        residual_after(zero, t, x, r),
        share(row, at(x, row), r),
        share(row, target, r),
    ];
    lemma_same_terms(
        term(0).plus(term(1)).minus(term(2)),
        term(0).plus(term(1).minus(term(2))),
        s,
    );
}

/// A coupled entry adds what its column is off the iterate, by its conductance.
proof fn lemma_coupled<S: Scalar>(
    ctx: &StampCtx<S>,
    row: Option<usize>,
    col: Option<usize>,
    g: S,
    t: Seq<Write<S>>,
    x: Seq<S>,
    r: int,
)
    requires
        S::exact(),
    ensures
        residual_after(
            S::spec_zero(),
            put_coupled(row, col, g, g.spec_times(at(ctx.x@, col)), t),
            x,
            r,
        ) == residual_after(S::spec_zero(), t, x, r).spec_plus(
            share(
                row,
                g.spec_times(at(x, col)).spec_minus(g.spec_times(at(ctx.x@, col))),
                r,
            ),
        ),
{
    broadcast use group_sums;

    let zero = S::spec_zero();
    let (p, q) = (g.spec_times(at(x, col)), g.spec_times(at(ctx.x@, col)));
    lemma_residual_g(zero, t, x, r, row, col, g);
    lemma_residual_i(zero, put_g(t, row, col, g), x, r, row, q);
    lemma_share(row, p, q, r);
    let s = seq![residual_after(zero, t, x, r), share(row, p, r), share(row, q, r)];
    lemma_same_terms(
        term(0).plus(term(1)).minus(term(2)),
        term(0).plus(term(1).minus(term(2))),
        s,
    );
    if col is None {
        S::laws(g, zero, zero);
        lemma_share(row, zero, zero, r);
        lemma_same_terms(term(0).plus(Sum::Nothing), term(0), s);
        lemma_same_terms(Sum::Nothing.minus(Sum::Nothing), Sum::Nothing, s);
        assert(put_coupled(row, col, g, q, t) == t);
    }
}

/// An amplifier between its rails: whatever the unknowns are, its output row holds what
/// the output is off its reference plus its gain times the input difference.
pub proof fn law_an_amplifier_follows_its_input<S: Scalar>(
    ctx: &StampCtx<S>,
    out: NodeId,
    inp: NodeId,
    inn: NodeId,
    reference: Option<NodeId>,
    gain: S,
    rail_lo: S,
    rail_hi: S,
    t: Seq<Write<S>>,
    x: Seq<S>,
    r: int,
)
    requires
        S::exact(),
        ordered::<S>(),
        ({
            let at_ref = match reference {
                Some(n) => at(ctx.x@, ctx.ix(n)),
                None => S::spec_zero(),
            };
            let wanted = at_ref.spec_plus(
                gain.spec_times(at(ctx.x@, ctx.ix(inp)).spec_minus(at(ctx.x@, ctx.ix(inn)))),
            );
            rail_lo.spec_less(wanted) && wanted.spec_less(rail_hi)
        }),
    ensures
        residual_after(
            S::spec_zero(),
            put_opamp(ctx, out, inp, inn, reference, gain, rail_lo, rail_hi, t),
            x,
            r,
        ) == residual_after(S::spec_zero(), t, x, r).spec_plus(
            share(
                ctx.ix(out),
                at(x, ctx.ix(out)).spec_minus(
                    (match reference {
                        Some(n) => at(x, ctx.ix(n)),
                        None => S::spec_zero(),
                    }).spec_plus(
                        gain.spec_times(at(x, ctx.ix(inp)).spec_minus(at(x, ctx.ix(inn)))),
                    ),
                ),
                r,
            ),
        ),
{
    broadcast use group_sums;

    let zero = S::spec_zero();
    let one = S::spec_int(1);
    let x0 = ctx.x@;
    let ri = maybe_ix(ctx, reference);
    let (oi, pi, ni) = (ctx.ix(out), ctx.ix(inp), ctx.ix(inn));
    let (vr, vp, vn) = (at(x0, ri), at(x0, pi), at(x0, ni));
    let target = vr.spec_plus(gain.spec_times(vp.spec_minus(vn)));
    let m = one.spec_negated();
    let t1 = put_output(oi, target, t);
    let t2 = put_coupled(oi, ri, m, m.spec_times(vr), t1);
    let gm = gain.spec_negated();
    let t3 = put_coupled(oi, pi, gm, gm.spec_times(vp), t2);
    let t4 = put_coupled(oi, ni, gain, gain.spec_times(vn), t3);
    lemma_one(gain);
    lemma_one(vr);
    lemma_product(gain, vp, vn);
    lemma_product(gain, at(x, pi), at(x, ni));
    lemma_one(at(x, ri));
    lemma_one(gain.spec_times(vp));
    assert(put_opamp(ctx, out, inp, inn, reference, gain, rail_lo, rail_hi, t) == t4);
    law_an_output_is_pulled_to_its_target(oi, target, t, x, r);
    lemma_coupled(ctx, oi, ri, m, t1, x, r);
    lemma_coupled(ctx, oi, pi, gm, t2, x, r);
    lemma_coupled(ctx, oi, ni, gain, t3, x, r);
    let (gp, gn) = (gain.spec_times(vp), gain.spec_times(vn));
    let (hp, hn) = (gain.spec_times(at(x, pi)), gain.spec_times(at(x, ni)));
    let (o, xr) = (at(x, oi), at(x, ri));
    let f = residual_after(zero, t, x, r);
    let (a, b, c, d) = (
        o.spec_minus(target),
        xr.spec_negated().spec_minus(vr.spec_negated()),
        hp.spec_negated().spec_minus(gp.spec_negated()),
        hn.spec_minus(gn),
    );
    lemma_share(oi, a, b, r);
    lemma_share(oi, a.spec_plus(b), c, r);
    lemma_share(oi, a.spec_plus(b).spec_plus(c), d, r);
    let s = seq![f, share(oi, a, r), share(oi, b, r), share(oi, c, r), share(oi, d, r)];
    lemma_same_terms(
        term(0).plus(term(1)).plus(term(2)).plus(term(3)).plus(term(4)),
        term(0).plus(term(1).plus(term(2)).plus(term(3)).plus(term(4))),
        s,
    );
    let s = seq![o, vr, gp, gn, xr, hp, hn];
    lemma_same_terms(
        term(0).minus(term(1).plus(term(2).minus(term(3)))).plus(
            term(4).negated().minus(term(1).negated()),
        ).plus(term(5).negated().minus(term(2).negated())).plus(term(6).minus(term(3))),
        term(0).minus(term(4).plus(term(5).minus(term(6)))),
        s,
    );
}

/// An amplifier driven to a rail holds that rail.
pub proof fn law_a_saturated_amplifier_holds_its_rail<S: Scalar>(
    ctx: &StampCtx<S>,
    out: NodeId,
    inp: NodeId,
    inn: NodeId,
    reference: Option<NodeId>,
    gain: S,
    rail_lo: S,
    rail_hi: S,
    t: Seq<Write<S>>,
    x: Seq<S>,
    r: int,
)
    requires
        S::exact(),
        ordered::<S>(),
        rail_lo.spec_less(rail_hi),
    ensures
        ({
            let at_ref = match reference {
                Some(n) => at(ctx.x@, ctx.ix(n)),
                None => S::spec_zero(),
            };
            let wanted = at_ref.spec_plus(
                gain.spec_times(at(ctx.x@, ctx.ix(inp)).spec_minus(at(ctx.x@, ctx.ix(inn)))),
            );
            let after = residual_after(
                S::spec_zero(),
                put_opamp(ctx, out, inp, inn, reference, gain, rail_lo, rail_hi, t),
                x,
                r,
            );
            let before = residual_after(S::spec_zero(), t, x, r);
            let oi = ctx.ix(out);
            &&& rail_hi.spec_less(wanted) ==> after == before.spec_plus(
                share(oi, at(x, oi).spec_minus(rail_hi), r),
            )
            &&& wanted.spec_less(rail_lo) ==> after == before.spec_plus(
                share(oi, at(x, oi).spec_minus(rail_lo), r),
            )
        }),
{
    let oi = ctx.ix(out);
    law_an_output_is_pulled_to_its_target(oi, rail_hi, t, x, r);
    law_an_output_is_pulled_to_its_target(oi, rail_lo, t, x, r);
    let at_ref = match reference {
        Some(n) => at(ctx.x@, ctx.ix(n)),
        None => S::spec_zero(),
    };
    let wanted = at_ref.spec_plus(
        gain.spec_times(at(ctx.x@, ctx.ix(inp)).spec_minus(at(ctx.x@, ctx.ix(inn)))),
    );
    S::laws(wanted, wanted, wanted);
}

/// A comparator drives one of its rails. A held one drives the rail it is held at. A
/// free one drives the high rail when its input exceeds the hysteresis, or, where its
/// output was high, exceeds the negative of it.
pub proof fn law_a_comparator_keeps_its_hysteresis<S: Scalar>(
    ctx: &StampCtx<S>,
    id: DeviceId,
    out: NodeId,
    inp: NodeId,
    inn: NodeId,
    out_lo: S,
    out_hi: S,
    hyst: S,
    t: Seq<Write<S>>,
    x: Seq<S>,
    r: int,
)
    requires
        S::exact(),
        !S::spec_zero().spec_less(ctx.branch_reg),
    ensures
        ({
            let oi = ctx.ix(out);
            let input = at(ctx.x@, ctx.ix(inp)).spec_minus(at(ctx.x@, ctx.ix(inn)));
            let was_high = frac::<S>(1, 2).spec_times(out_lo.spec_plus(out_hi)).spec_less(
                at(ctx.x@, oi),
            );
            let high = match ctx.comparator_freeze {
                Some(held) => match held@[id.0 as int] {
                    Some(high) => high,
                    None => was_high,
                },
                None => hyst.spec_less(input) && !was_high || hyst.spec_negated().spec_less(
                    input,
                ) && was_high,
            };
            residual_after(
                S::spec_zero(),
                put_comparator(ctx, id, out, inp, inn, out_lo, out_hi, hyst, t),
                x,
                r,
            ) == residual_after(S::spec_zero(), t, x, r).spec_plus(
                share(
                    oi,
                    at(x, oi).spec_minus(
                        if high {
                            out_hi
                        } else {
                            out_lo
                        },
                    ),
                    r,
                ),
            )
        }),
{
    law_an_output_is_pulled_to_its_target(ctx.ix(out), out_hi, t, x, r);
    law_an_output_is_pulled_to_its_target(ctx.ix(out), out_lo, t, x, r);
}

/// A switch whose position is held is its on or its off resistance; where the position
/// is left open it is on above the middle of its control band.
pub proof fn law_a_held_switch_is_a_resistance<S: Scalar>(
    ctx: &StampCtx<S>,
    id: DeviceId,
    a: NodeId,
    b: NodeId,
    cp: NodeId,
    cn: NodeId,
    von: S,
    voff: S,
    ron: S,
    roff: S,
    t: Seq<Write<S>>,
    x: Seq<S>,
    r: int,
) -> (i: S)
    requires
        S::exact(),
        S::spec_int(2) != S::spec_zero(),
        ctx.switch_freeze is Some,
        frac::<S>(1, 1_000_000_000_000).spec_less(ron) && ron != S::spec_zero(),
        frac::<S>(1, 1_000_000_000_000).spec_less(roff) && roff != S::spec_zero(),
    ensures
        S::spec_int(2).spec_times(midpoint(von, voff)) == von.spec_plus(voff),
        ({
            let control = at(ctx.x@, ctx.ix(cp)).spec_minus(at(ctx.x@, ctx.ix(cn)));
            let on = match ctx.switch_freeze->0@[id.0 as int] {
                Some(on) => on,
                None => midpoint(von, voff).spec_less(control),
            };
            let ohms = if on {
                ron
            } else {
                roff
            };
            &&& i.spec_times(ohms) == at(x, ctx.ix(a)).spec_minus(at(x, ctx.ix(b)))
            &&& residual_after(
                S::spec_zero(),
                put_vswitch(ctx, id, a, b, cp, cn, von, voff, ron, roff, t),
                x,
                r,
            ) == residual_after(S::spec_zero(), t, x, r).spec_plus(
                drawn(ctx.ix(a), ctx.ix(b), i, r),
            )
        }),
{
    let zero = S::spec_zero();
    let one = S::spec_int(1);
    let two = S::spec_int(2);
    let sum = von.spec_plus(voff);
    S::laws(two, frac::<S>(1, 2), sum);
    S::laws(frac::<S>(1, 2), two, two);
    S::laws(one, two, two);
    lemma_one(sum);
    let control = at(ctx.x@, ctx.ix(cp)).spec_minus(at(ctx.x@, ctx.ix(cn)));
    let on = match ctx.switch_freeze->0@[id.0 as int] {
        Some(on) => on,
        None => midpoint(von, voff).spec_less(control),
    };
    let ohms = if on {
        ron
    } else {
        roff
    };
    let g = rail_conductance(ohms);
    let v = at(x, ctx.ix(a)).spec_minus(at(x, ctx.ix(b)));
    law_a_conductance_obeys_ohm(zero, t, x, r, ctx.ix(a), ctx.ix(b), g);
    assert(put_vswitch(ctx, id, a, b, cp, cn, von, voff, ron, roff, t) == put_pair(
        t,
        ctx.ix(a),
        ctx.ix(b),
        g,
    ));
    S::laws(one, ohms, ohms);
    S::laws(g, v, ohms);
    S::laws(v, ohms, ohms);
    S::laws(g, ohms, v);
    lemma_one(v);
    g.spec_times(v)
}

/// A switch that is free draws, at the iterate, one conductance times the voltage
/// across it: the tangent of its control adds nothing there.
pub proof fn law_a_free_switch_conducts<S: Scalar>(
    ctx: &StampCtx<S>,
    id: DeviceId,
    a: NodeId,
    b: NodeId,
    cp: NodeId,
    cn: NodeId,
    von: S,
    voff: S,
    ron: S,
    roff: S,
    t: Seq<Write<S>>,
) -> (g: S)
    requires
        S::exact(),
        ctx.switch_freeze is None,
        !S::spec_zero().spec_less(ctx.branch_reg),
    ensures
        forall|r: int|
            #[trigger] residual_after(
                S::spec_zero(),
                put_vswitch(ctx, id, a, b, cp, cn, von, voff, ron, roff, t),
                ctx.x@,
                r,
            ) == residual_after(S::spec_zero(), t, ctx.x@, r).spec_plus(
                drawn(
                    ctx.ix(a),
                    ctx.ix(b),
                    g.spec_times(at(ctx.x@, ctx.ix(a)).spec_minus(at(ctx.x@, ctx.ix(b)))),
                    r,
                ),
            ),
{
    broadcast use group_sums;

    let zero = S::spec_zero();
    let one = S::spec_int(1);
    let half = frac::<S>(1, 2);
    let three = S::spec_int(3);
    let x = ctx.x@;
    let (ai, bi, ci, di) = (ctx.ix(a), ctx.ix(b), ctx.ix(cp), ctx.ix(cn));
    let (gon, goff) = (rail_conductance(ron), rail_conductance(roff));
    let mid = midpoint(von, voff);
    let span = band(von, voff);
    let vctrl = at(x, ci).spec_minus(at(x, di));
    let (lgon, lgoff) = (gon.spec_ln(), goff.spec_ln());
    let th = three.spec_times(vctrl.spec_minus(mid)).spec_over(span).spec_tanh();
    let s0 = half.spec_times(one.spec_plus(th));
    let s1 = match winner(ctx, id, vctrl, mid, span) {
        Some(win) => s0.spec_times(win),
        None => s0,
    };
    let g = lgoff.spec_plus(s1.spec_times(lgon.spec_minus(lgoff))).spec_exp();
    let slope = g.spec_times(lgon.spec_minus(lgoff)).spec_times(half).spec_times(
        one.spec_minus(th.spec_times(th)),
    ).spec_times(three.spec_over(span));
    let v = at(x, ai).spec_minus(at(x, bi));
    let gm = v.spec_times(slope);
    let t1 = put_pair(t, ai, bi, g);
    let t2 = put_transconductance(t1, ai, bi, ci, di, gm);
    let ieq = gm.spec_times(vctrl);
    lemma_same_terms(term(0).negated().negated(), term(0), seq![ieq]);
    let with = put_current(t2, ai, bi, ieq.spec_negated());
    let whole = put_vswitch(ctx, id, a, b, cp, cn, von, voff, ron, roff, t);
    assert(whole == t1 || whole == with);
    assert forall|r: int| #[trigger]
        residual_after(zero, whole, x, r) == residual_after(zero, t, x, r).spec_plus(drawn(ai, bi, g.spec_times(v), r)) by {
        law_a_conductance_obeys_ohm(zero, t, x, r, ai, bi, g);
        law_a_transconductance_is_controlled(zero, t1, x, r, ai, bi, ci, di, gm);
        law_a_current_leaves_and_enters(zero, t2, x, r, ai, bi, ieq.spec_negated());
        lemma_drawn_sum(ai, bi, ieq, ieq, r);
        let s = seq![residual_after(zero, t1, x, r), drawn(ai, bi, ieq, r)];
        lemma_same_terms(term(0).plus(term(1)).plus(term(1).negated()), term(0), s);
    }
    g
}

/// A behavioral current source drives, at the iterate, the value of its expression: the
/// tangents of what it depends on add nothing there.
pub proof fn law_a_behavioral_current_is_its_value<S: Scalar>(
    ctx: &StampCtx<S>,
    id: DeviceId,
    p: NodeId,
    n: NodeId,
    deps: Seq<BDep>,
    t: Seq<Write<S>>,
    r: int,
)
    requires
        S::exact(),
        ctx.behavior@[id.0 as int] is Some,
    ensures
        residual_after(
            S::spec_zero(),
            put_behavioral(ctx, id, p, n, BOutput::Current, deps, t),
            ctx.x@,
            r,
        ) == residual_after(S::spec_zero(), t, ctx.x@, r).spec_plus(
            drawn(ctx.ix(p), ctx.ix(n), ctx.behavior@[id.0 as int]->0.value, r),
        ),
{
    let lin = ctx.behavior@[id.0 as int]->0;
    let g = lin.partials@;
    let (pi, ni) = (ctx.ix(p), ctx.ix(n));
    let rest = const_term(ctx, deps, lin.value, g, deps.len());
    lemma_current_partials(ctx, pi, ni, deps, lin.value, g, deps.len(), t, r);
    law_a_current_leaves_and_enters(
        S::spec_zero(),
        put_current_partials(ctx, pi, ni, deps, g, deps.len(), t),
        ctx.x@,
        r,
        pi,
        ni,
        rest,
    );
}

proof fn lemma_current_partials<S: Scalar>(
    ctx: &StampCtx<S>,
    p: Option<usize>,
    n: Option<usize>,
    deps: Seq<BDep>,
    value: S,
    g: Seq<S>,
    count: nat,
    t: Seq<Write<S>>,
    r: int,
)
    requires
        S::exact(),
    ensures
        residual_after(
            S::spec_zero(),
            put_current_partials(ctx, p, n, deps, g, count, t),
            ctx.x@,
            r,
        ).spec_plus(drawn(p, n, const_term(ctx, deps, value, g, count), r)) == residual_after(
            S::spec_zero(),
            t,
            ctx.x@,
            r,
        ).spec_plus(drawn(p, n, value, r)),
    decreases count,
{
    broadcast use group_sums;

    if count > 0 {
        let zero = S::spec_zero();
        let x = ctx.x@;
        let c = (count - 1) as nat;
        lemma_current_partials(ctx, p, n, deps, value, g, c, t, r);
        let before = put_current_partials(ctx, p, n, deps, g, c, t);
        let col = dep_column(ctx, deps[count - 1]);
        let k = g[count - 1];
        let y = k.spec_times(at(x, col));
        lemma_residual_g(zero, before, x, r, p, col, k);
        lemma_residual_g(zero, put_g(before, p, col, k), x, r, n, col, k.spec_negated());
        lemma_product(k, at(x, col), zero);
        lemma_share(n, y, y, r);
        let rest = const_term(ctx, deps, value, g, c);
        lemma_drawn_sum(p, n, rest, y, r);
        let s = seq![
            residual_after(zero, before, x, r),
            share(p, y, r),
            share(n, y, r),
            drawn(p, n, rest, r),
        ];
        lemma_same_terms(
            term(0).plus(term(1)).plus(term(2).negated()).plus(
                term(3).minus(term(1).minus(term(2))),
            ),
            term(0).plus(term(3)),
            s,
        );
    }
}

/// A behavioral voltage source holds, at the iterate, the value of its expression.
pub proof fn law_a_behavioral_voltage_is_its_value<S: Scalar>(
    ctx: &StampCtx<S>,
    id: DeviceId,
    p: NodeId,
    n: NodeId,
    deps: Seq<BDep>,
    t: Seq<Write<S>>,
    r: int,
)
    requires
        S::exact(),
        ctx.behavior@[id.0 as int] is Some,
    ensures
        residual_after(
            S::spec_zero(),
            put_behavioral(ctx, id, p, n, BOutput::Voltage, deps, t),
            ctx.x@,
            r,
        ) == residual_after(S::spec_zero(), t, ctx.x@, r).spec_plus(
            drawn(ctx.ix(p), ctx.ix(n), at(ctx.x@, ctx.br(id)), r),
        ).spec_plus(
            share(
                ctx.br(id),
                at(ctx.x@, ctx.ix(p)).spec_minus(at(ctx.x@, ctx.ix(n))).spec_minus(
                    ctx.behavior@[id.0 as int]->0.value,
                ),
                r,
            ),
        ),
{
    broadcast use group_sums;

    let zero = S::spec_zero();
    let x = ctx.x@;
    let lin = ctx.behavior@[id.0 as int]->0;
    let g = lin.partials@;
    let br = ctx.br(id);
    let (pi, ni) = (ctx.ix(p), ctx.ix(n));
    let rest = const_term(ctx, deps, lin.value, g, deps.len());
    let t1 = put_incidence(t, pi, ni, br);
    law_a_branch_joins_its_nodes(zero, t, x, r, pi, ni, br);
    lemma_branch_partials(ctx, br, deps, lin.value, g, deps.len(), t1, r);
    let t2 = put_branch_partials(ctx, br, deps, g, deps.len(), t1);
    lemma_residual_i(zero, t2, x, r, br, rest);
    let v = at(x, pi).spec_minus(at(x, ni));
    lemma_share(br, v, lin.value, r);
    let s = seq![
        residual_after(zero, t, x, r),
        drawn(pi, ni, at(x, br), r),
        share(br, v, r),
        share(br, lin.value, r),
    ];
    lemma_same_terms(
        term(0).plus(term(1)).plus(term(2)).minus(term(3)),
        term(0).plus(term(1)).plus(term(2).minus(term(3))),
        s,
    );
}

proof fn lemma_branch_partials<S: Scalar>(
    ctx: &StampCtx<S>,
    br: Option<usize>,
    deps: Seq<BDep>,
    value: S,
    g: Seq<S>,
    count: nat,
    t: Seq<Write<S>>,
    r: int,
)
    requires
        S::exact(),
    ensures
        residual_after(
            S::spec_zero(),
            put_branch_partials(ctx, br, deps, g, count, t),
            ctx.x@,
            r,
        ).spec_minus(share(br, const_term(ctx, deps, value, g, count), r)) == residual_after(
            S::spec_zero(),
            t,
            ctx.x@,
            r,
        ).spec_minus(share(br, value, r)),
    decreases count,
{
    broadcast use group_sums;

    if count > 0 {
        let zero = S::spec_zero();
        let x = ctx.x@;
        let c = (count - 1) as nat;
        lemma_branch_partials(ctx, br, deps, value, g, c, t, r);
        let before = put_branch_partials(ctx, br, deps, g, c, t);
        let col = dep_column(ctx, deps[count - 1]);
        let k = g[count - 1];
        let y = k.spec_times(at(x, col));
        lemma_residual_g(zero, before, x, r, br, col, k.spec_negated());
        lemma_product(k, at(x, col), zero);
        let rest = const_term(ctx, deps, value, g, c);
        lemma_share(br, rest, y, r);
        lemma_share(br, y, rest, r);
        let s = seq![residual_after(zero, before, x, r), share(br, y, r), share(br, rest, r)];
        lemma_same_terms(
            term(0).plus(term(1).negated()).minus(term(2).minus(term(1))),
            term(0).minus(term(2)),
            s,
        );
    }
}

/// A probe moves one dependency and no other, and the quotient it gives is the rise of
/// the expression over that move.
pub proof fn law_a_probe_measures_a_slope<S: Scalar>(
    deps: Seq<BDep>,
    vals: Seq<S>,
    k: int,
    opts: &SolverOptions<S>,
    f0: S,
    fk: S,
)
    requires
        S::exact(),
        0 <= k < vals.len(),
        probed(deps, vals, k, opts)[k] != vals[k],
    ensures
        probed(deps, vals, k, opts).len() == vals.len(),
        forall|j: int| 0 <= j < vals.len() && j != k ==> #[trigger] probed(
            deps,
            vals,
            k,
            opts,
        )[j] == vals[j],
        quotient(deps, vals, k, opts, f0, fk).spec_times(
            probed(deps, vals, k, opts)[k].spec_minus(vals[k]),
        ) == fk.spec_minus(f0),
{
    broadcast use group_sums;

    let step = probe_step(deps[k], vals[k], opts);
    lemma_same_terms(term(0).plus(term(1)).minus(term(0)), term(1), seq![vals[k], step]);
    lemma_same_terms(term(0).plus(Sum::Nothing), term(0), seq![vals[k]]);
    S::laws(fk.spec_minus(f0), step, step);
}

} // verus!
