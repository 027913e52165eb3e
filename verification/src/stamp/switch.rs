//! Switches, amplifiers and comparators.
use vstd::prelude::*;

use crate::circuit::{Device, DeviceId, NodeId};
use crate::scalar::Scalar;
use crate::stamp::context::{at_least, clamp, clamped, frac, raise, ratio, StampCtx};
use crate::stamp::tape::{
    add_pair, add_transconductance, inject, push_g, put_g, put_i, put_pair, put_transconductance,
    Write,
};

verus! {

/// `1 / max(r, 1e-12)`.
pub open spec fn rail_conductance<S: Scalar>(r: S) -> S {
    S::spec_int(1).spec_over(at_least(r, frac(1, 1_000_000_000_000)))
}

fn conductance_of<S: Scalar>(r: S) -> (g: S)
    ensures
        g == rail_conductance(r),
{
    S::from_int(1).over(raise(r, ratio(1, 1_000_000_000_000)))
}

/// The middle of a switch's control band.
pub open spec fn midpoint<S: Scalar>(von: S, voff: S) -> S {
    frac::<S>(1, 2).spec_times(von.spec_plus(voff))
}

/// The width of a switch's control band, never below a nanovolt.
pub open spec fn band<S: Scalar>(von: S, voff: S) -> S {
    at_least(von.spec_minus(voff).spec_abs(), frac(1, 1_000_000_000))
}

fn band_of<S: Scalar>(von: S, voff: S) -> (r: (S, S))
    ensures
        r == (midpoint(von, voff), band(von, voff)),
{
    (
        ratio::<S>(1, 2).times(von.plus(voff)),
        raise(von.minus(voff).abs(), ratio(1, 1_000_000_000)),
    )
}

/// The control voltage a switch is linearized at: on the regularized path its
/// move is bounded to about one band width.
pub open spec fn control_voltage<S: Scalar>(
    ctx: &StampCtx<S>,
    cp: NodeId,
    cn: NodeId,
    mid: S,
    span: S,
) -> S {
    let three = S::spec_int(3);
    let one = S::spec_int(1);
    let raw = ctx.spec_v(cp).spec_minus(ctx.spec_v(cn));
    if S::spec_zero().spec_less(ctx.branch_reg) {
        let old_v = ctx.spec_v_prev(cp).spec_minus(ctx.spec_v_prev(cn));
        let u_new = three.spec_times(raw.spec_minus(mid)).spec_over(span);
        let u_old = three.spec_times(old_v.spec_minus(mid)).spec_over(span);
        let du = clamped(u_new.spec_minus(u_old), one.spec_negated(), one);
        mid.spec_plus(u_old.spec_plus(du).spec_times(span).spec_over(three))
    } else {
        raw
    }
}

fn limited_control<S: Scalar>(
    ctx: &StampCtx<S>,
    cp: NodeId,
    cn: NodeId,
    mid: S,
    span: S,
) -> (r: S)
    requires
        ctx.wf(),
    ensures
        r == control_voltage(ctx, cp, cn, mid, span),
{
    let three: S = S::from_int(3);
    let one: S = S::from_int(1);
    let raw: S = ctx.v(cp).minus(ctx.v(cn));
    if S::zero().less(ctx.branch_reg) {
        let old_v: S = ctx.v_prev(cp).minus(ctx.v_prev(cn));
        let u_new: S = three.times(raw.minus(mid)).over(span);
        let u_old: S = three.times(old_v.minus(mid)).over(span);
        let du: S = clamp(u_new.minus(u_old), one.negated(), one);
        mid.plus(u_old.plus(du).times(span).over(three))
    } else {
        raw
    }
}

/// How far the other throw lets this one conduct: near one where this throw is
/// further past its threshold, near zero where the other is.
pub open spec fn winner<S: Scalar>(
    ctx: &StampCtx<S>,
    id: DeviceId,
    vctrl: S,
    mid: S,
    span: S,
) -> Option<S> {
    let devices = ctx.circuit.devices@;
    match ctx.spdt_sibling@[id.0 as int] {
        Some(sib) => if ctx.opts.effects.spdt_bbm && sib.0 < devices.len() {
            match devices[sib.0 as int] {
                Device::VSwitch { ctrl_p, ctrl_n, von, voff, .. } => {
                    let own = vctrl.spec_minus(mid).spec_over(span);
                    let other = ctx.spec_v(ctrl_p).spec_minus(ctx.spec_v(ctrl_n)).spec_minus(
                        midpoint(von, voff),
                    ).spec_over(band(von, voff));
                    let arg = clamped(
                        ctx.opts.effects.spdt_bbm_k.spec_times(own.spec_minus(other)),
                        S::spec_int(-40i64),
                        S::spec_int(40),
                    );
                    let one = S::spec_int(1);
                    Some(one.spec_over(one.spec_plus(arg.spec_negated().spec_exp())))
                },
                _ => None,
            }
        } else {
            None
        },
        None => None,
    }
}

fn winner_of<S: Scalar>(ctx: &StampCtx<S>, id: DeviceId, vctrl: S, mid: S, span: S) -> (r: Option<S>)
    requires
        ctx.wf(),
        id.0 < ctx.circuit.devices@.len(),
    ensures
        r == winner(ctx, id, vctrl, mid, span),
{
    if !ctx.opts.effects.spdt_bbm {
        return None;
    }
    match ctx.spdt_sibling[id.0 as usize] {
        Some(sib) => {
            if sib.0 as usize >= ctx.circuit.devices.len() {
                return None;
            }
            match &ctx.circuit.devices[sib.0 as usize] {
                Device::VSwitch { ctrl_p, ctrl_n, von, voff, .. } => {
                    let (smid, sspan) = band_of(*von, *voff);
                    let own: S = vctrl.minus(mid).over(span);
                    let other: S = ctx.v(*ctrl_p).minus(ctx.v(*ctrl_n)).minus(smid).over(sspan);
                    let arg: S = clamp(
                        ctx.opts.effects.spdt_bbm_k.times(own.minus(other)),
                        S::from_int(-40),
                        S::from_int(40),
                    );
                    let one: S = S::from_int(1);
                    Some(one.over(one.plus(arg.negated().exp())))
                },
                _ => None,
            }
        },
        None => None,
    }
}

/// A voltage-controlled switch. Held positions stamp a plain conductance.
/// Otherwise the conductance is interpolated on a logarithmic scale, and the
/// control voltage enters as a tangent.
pub open spec fn put_vswitch<S: Scalar>(
    ctx: &StampCtx<S>,
    id: DeviceId,
    a: NodeId,
    b: NodeId,
    cp: NodeId,
    cn: NodeId,
    von: S,
    voff: S,
    ron: S,
    roff: S,
    t: Seq<Write<S>>,
) -> Seq<Write<S>> {
    let gon = rail_conductance(ron);
    let goff = rail_conductance(roff);
    let mid = midpoint(von, voff);
    let ai = ctx.ix(a);
    let bi = ctx.ix(b);
    match ctx.switch_freeze {
        Some(held) => {
            let on = match held@[id.0 as int] {
                Some(on) => on,
                None => mid.spec_less(ctx.spec_v(cp).spec_minus(ctx.spec_v(cn))),
            };
            put_pair(
                t,
                ai,
                bi,
                if on {
                    gon
                } else {
                    goff
                },
            )
        },
        None => {
            let one = S::spec_int(1);
            let half = frac::<S>(1, 2);
            let three = S::spec_int(3);
            let span = band(von, voff);
            let vctrl = control_voltage(ctx, cp, cn, mid, span);
            let lgon = gon.spec_ln();
            let lgoff = goff.spec_ln();
            let th = three.spec_times(vctrl.spec_minus(mid)).spec_over(span).spec_tanh();
            let s0 = half.spec_times(one.spec_plus(th));
            let s = match winner(ctx, id, vctrl, mid, span) {
                Some(win) => s0.spec_times(win),
                None => s0,
            };
            let gsw = lgoff.spec_plus(s.spec_times(lgon.spec_minus(lgoff))).spec_exp();
            let t1 = put_pair(t, ai, bi, gsw);
            let slope = gsw.spec_times(lgon.spec_minus(lgoff)).spec_times(half).spec_times(
                one.spec_minus(th.spec_times(th)),
            ).spec_times(three.spec_over(span));
            let gm = ctx.spec_v(a).spec_minus(ctx.spec_v(b)).spec_times(slope);
            if !gm.spec_is_zero() && ctx.opts.effects.switch_ctrl_gm {
                let t2 = put_transconductance(t1, ai, bi, ctx.ix(cp), ctx.ix(cn), gm);
                let ieq = gm.spec_times(vctrl);
                put_i(put_i(t2, ai, ieq), bi, ieq.spec_negated())
            } else {
                t1
            }
        },
    }
}

pub fn stamp_vswitch<S: Scalar>(
    ctx: &StampCtx<S>,
    id: DeviceId,
    a: NodeId,
    b: NodeId,
    cp: NodeId,
    cn: NodeId,
    von: S,
    voff: S,
    ron: S,
    roff: S,
    out: &mut Vec<Write<S>>,
)
    requires
        ctx.wf(),
        id.0 < ctx.circuit.devices@.len(),
    ensures
        final(out)@ == put_vswitch(ctx, id, a, b, cp, cn, von, voff, ron, roff, old(out)@),
{
    let gon: S = conductance_of(ron);
    let goff: S = conductance_of(roff);
    let (mid, span) = band_of(von, voff);
    let ai = ctx.node(a);
    let bi = ctx.node(b);
    match ctx.switch_freeze {
        Some(held) => {
            let on: bool = match held[id.0 as usize] {
                Some(on) => on,
                None => mid.less(ctx.v(cp).minus(ctx.v(cn))),
            };
            add_pair(
                out,
                ai,
                bi,
                if on {
                    gon
                } else {
                    goff
                },
            );
            return;
        },
        None => {},
    }
    let one: S = S::from_int(1);
    let half: S = ratio(1, 2);
    let three: S = S::from_int(3);
    let vctrl: S = limited_control(ctx, cp, cn, mid, span);
    let lgon: S = gon.ln();
    let lgoff: S = goff.ln();
    let th: S = three.times(vctrl.minus(mid)).over(span).tanh();
    let mut s: S = half.times(one.plus(th));
    match winner_of(ctx, id, vctrl, mid, span) {
        Some(win) => {
            s = s.times(win);
        },
        None => {},
    }
    let gsw: S = lgoff.plus(s.times(lgon.minus(lgoff))).exp();
    add_pair(out, ai, bi, gsw);
    let slope: S = gsw.times(lgon.minus(lgoff)).times(half).times(one.minus(th.times(th))).times(
        three.over(span),
    );
    let gm: S = ctx.v(a).minus(ctx.v(b)).times(slope);
    if !gm.is_zero() && ctx.opts.effects.switch_ctrl_gm {
        add_transconductance(out, ai, bi, ctx.node(cp), ctx.node(cn), gm);
        let ieq: S = gm.times(vctrl);
        inject(out, ai, ieq);
        inject(out, bi, ieq.negated());
    }
}

/// The row if the column exists.
pub open spec fn row_with(row: Option<usize>, col: Option<usize>) -> Option<usize> {
    if col is Some {
        row
    } else {
        None
    }
}

/// An entry in an output row with the matching right-hand side.
pub open spec fn put_coupled<S: Scalar>(
    row: Option<usize>,
    col: Option<usize>,
    g: S,
    i: S,
    t: Seq<Write<S>>,
) -> Seq<Write<S>> {
    put_i(put_g(t, row, col, g), row_with(row, col), i)
}

fn stamp_coupled<S: Scalar>(
    row: Option<usize>,
    col: Option<usize>,
    g: S,
    i: S,
    out: &mut Vec<Write<S>>,
)
    ensures
        final(out)@ == put_coupled(row, col, g, i, old(out)@),
{
    push_g(out, row, col, g);
    if col.is_some() {
        inject(out, row, i);
    }
}

/// An output stage of one siemens driving towards a target.
pub open spec fn put_output<S: Scalar>(
    row: Option<usize>,
    target: S,
    t: Seq<Write<S>>,
) -> Seq<Write<S>> {
    let gout = S::spec_int(1);
    put_i(put_g(t, row, row, gout), row, gout.spec_times(target))
}

fn stamp_output<S: Scalar>(row: Option<usize>, target: S, out: &mut Vec<Write<S>>)
    ensures
        final(out)@ == put_output(row, target, old(out)@),
{
    let gout: S = S::from_int(1);
    push_g(out, row, row, gout);
    inject(out, row, gout.times(target));
}

/// The unknown of an optional node.
pub open spec fn maybe_ix<S: Scalar>(ctx: &StampCtx<S>, n: Option<NodeId>) -> Option<usize> {
    match n {
        Some(n) => ctx.ix(n),
        None => None,
    }
}

/// An amplifier: its output follows `vref + gain * (vp - vn)` between the rails,
/// where it is linearized in its inputs.
pub open spec fn put_opamp<S: Scalar>(
    ctx: &StampCtx<S>,
    out: NodeId,
    inp: NodeId,
    inn: NodeId,
    reference: Option<NodeId>,
    gain: S,
    rail_lo: S,
    rail_hi: S,
    t: Seq<Write<S>>,
) -> Seq<Write<S>> {
    let gout = S::spec_int(1);
    let vp = ctx.spec_v(inp);
    let vn = ctx.spec_v(inn);
    let vref = match reference {
        Some(n) => ctx.spec_v(n),
        None => S::spec_zero(),
    };
    let target = clamped(
        vref.spec_plus(gain.spec_times(vp.spec_minus(vn))),
        rail_lo,
        rail_hi,
    );
    let oi = ctx.ix(out);
    let t1 = put_output(oi, target, t);
    if rail_lo.spec_less(target) && target.spec_less(rail_hi) {
        let t2 = put_coupled(
            oi,
            maybe_ix(ctx, reference),
            gout.spec_negated(),
            gout.spec_times(vref).spec_negated(),
            t1,
        );
        let t3 = put_coupled(
            oi,
            ctx.ix(inp),
            gout.spec_negated().spec_times(gain),
            gout.spec_times(gain).spec_times(vp).spec_negated(),
            t2,
        );
        put_coupled(
            oi,
            ctx.ix(inn),
            gout.spec_times(gain),
            gout.spec_times(gain).spec_times(vn),
            t3,
        )
    } else {
        t1
    }
}

pub fn stamp_opamp<S: Scalar>(
    ctx: &StampCtx<S>,
    out: NodeId,
    inp: NodeId,
    inn: NodeId,
    reference: Option<NodeId>,
    gain: S,
    rail_lo: S,
    rail_hi: S,
    tape: &mut Vec<Write<S>>,
)
    requires
        ctx.wf(),
    ensures
        final(tape)@ == put_opamp(
            ctx,
            out,
            inp,
            inn,
            reference,
            gain,
            rail_lo,
            rail_hi,
            old(tape)@,
        ),
{
    let gout: S = S::from_int(1);
    let vp: S = ctx.v(inp);
    let vn: S = ctx.v(inn);
    let (vref, ri): (S, Option<usize>) = match reference {
        Some(n) => (ctx.v(n), ctx.node(n)),
        None => (S::zero(), None),
    };
    let target: S = clamp(vref.plus(gain.times(vp.minus(vn))), rail_lo, rail_hi);
    let oi = ctx.node(out);
    stamp_output(oi, target, tape);
    if rail_lo.less(target) && target.less(rail_hi) {
        stamp_coupled(oi, ri, gout.negated(), gout.times(vref).negated(), tape);
        stamp_coupled(
            oi,
            ctx.node(inp),
            gout.negated().times(gain),
            gout.times(gain).times(vp).negated(),
            tape,
        );
        stamp_coupled(oi, ctx.node(inn), gout.times(gain), gout.times(gain).times(vn), tape);
    }
}

/// A comparator. A held output stamps its rail. Otherwise the output is at the
/// high rail when `vp - vn` exceeds the hysteresis threshold, or, on the
/// regularized path, a steep logistic of it.
pub open spec fn put_comparator<S: Scalar>(
    ctx: &StampCtx<S>,
    id: DeviceId,
    out: NodeId,
    inp: NodeId,
    inn: NodeId,
    out_lo: S,
    out_hi: S,
    hyst: S,
    t: Seq<Write<S>>,
) -> Seq<Write<S>> {
    let vp = ctx.spec_v(inp);
    let vn = ctx.spec_v(inn);
    let oi = ctx.ix(out);
    let was_high = frac::<S>(1, 2).spec_times(out_lo.spec_plus(out_hi)).spec_less(
        ctx.spec_v(out),
    );
    match ctx.comparator_freeze {
        Some(held) => {
            let high = match held@[id.0 as int] {
                Some(high) => high,
                None => was_high,
            };
            put_output(
                oi,
                if high {
                    out_hi
                } else {
                    out_lo
                },
                t,
            )
        },
        None => {
            let thresh = if was_high {
                hyst.spec_negated()
            } else {
                hyst
            };
            if S::spec_zero().spec_less(ctx.branch_reg) {
                let one = S::spec_int(1);
                let gout = S::spec_int(1);
                let span = out_hi.spec_minus(out_lo);
                let k = ctx.opts.effects.comparator_gain;
                let kd = clamped(
                    k.spec_times(vp.spec_minus(vn).spec_minus(thresh)),
                    S::spec_int(-40i64),
                    S::spec_int(40),
                );
                let sig = one.spec_over(one.spec_plus(kd.spec_negated().spec_exp()));
                let target = out_lo.spec_plus(span.spec_times(sig));
                let slope = span.spec_times(k.spec_times(sig).spec_times(one.spec_minus(sig)));
                let t1 = put_output(oi, target, t);
                let t2 = put_coupled(
                    oi,
                    ctx.ix(inp),
                    gout.spec_negated().spec_times(slope),
                    gout.spec_times(slope).spec_times(vp).spec_negated(),
                    t1,
                );
                put_coupled(
                    oi,
                    ctx.ix(inn),
                    gout.spec_times(slope),
                    gout.spec_times(slope).spec_times(vn),
                    t2,
                )
            } else {
                put_output(
                    oi,
                    if thresh.spec_less(vp.spec_minus(vn)) {
                        out_hi
                    } else {
                        out_lo
                    },
                    t,
                )
            }
        },
    }
}

pub fn stamp_comparator<S: Scalar>(
    ctx: &StampCtx<S>,
    id: DeviceId,
    out: NodeId,
    inp: NodeId,
    inn: NodeId,
    out_lo: S,
    out_hi: S,
    hyst: S,
    tape: &mut Vec<Write<S>>,
)
    requires
        ctx.wf(),
        id.0 < ctx.circuit.devices@.len(),
    ensures
        final(tape)@ == put_comparator(
            ctx,
            id,
            out,
            inp,
            inn,
            out_lo,
            out_hi,
            hyst,
            old(tape)@,
        ),
{
    let vp: S = ctx.v(inp);
    let vn: S = ctx.v(inn);
    let oi = ctx.node(out);
    let was_high: bool = ratio::<S>(1, 2).times(out_lo.plus(out_hi)).less(ctx.v(out));
    match ctx.comparator_freeze {
        Some(held) => {
            let high: bool = match held[id.0 as usize] {
                Some(high) => high,
                None => was_high,
            };
            stamp_output(
                oi,
                if high {
                    out_hi
                } else {
                    out_lo
                },
                tape,
            );
            return;
        },
        None => {},
    }
    let thresh: S = if was_high {
        hyst.negated()
    } else {
        hyst
    };
    if S::zero().less(ctx.branch_reg) {
        let one: S = S::from_int(1);
        let gout: S = S::from_int(1);
        let span: S = out_hi.minus(out_lo);
        let k: S = ctx.opts.effects.comparator_gain;
        let kd: S = clamp(
            k.times(vp.minus(vn).minus(thresh)),
            S::from_int(-40),
            S::from_int(40),
        );
        let sig: S = one.over(one.plus(kd.negated().exp()));
        let target: S = out_lo.plus(span.times(sig));
        let slope: S = span.times(k.times(sig).times(one.minus(sig)));
        stamp_output(oi, target, tape);
        stamp_coupled(
            oi,
            ctx.node(inp),
            gout.negated().times(slope),
            gout.times(slope).times(vp).negated(),
            tape,
        );
        stamp_coupled(oi, ctx.node(inn), gout.times(slope), gout.times(slope).times(vn), tape);
        return;
    }
    stamp_output(
        oi,
        if thresh.less(vp.minus(vn)) {
            out_hi
        } else {
            out_lo
        },
        tape,
    );
}

} // verus!
