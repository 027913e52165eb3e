//! The junction: limiting, current, stored charge, and the diode.
use vstd::prelude::*;

use crate::circuit::{Circuit, Device, DeviceId, DiodeModel, NodeId};
use crate::options::{DeviceEffects, SolverOptions};
use crate::scalar::Scalar;
use crate::stamp::context::{
    at_least, charge_history, frac, history, lower_to, no_more, raise, ratio, StampCtx,
};
use crate::stamp::tape::{add_pair, put_current, put_pair, stamp_current, Write};

verus! {

/// A junction voltage bounded in how far it moves in one iteration.
pub open spec fn limited<S: Scalar>(vnew: S, vold: S, vt: S, vcrit: S) -> S {
    let moved = vnew.spec_minus(vold);
    if vcrit.spec_less(vnew) && S::spec_int(2).spec_times(vt).spec_less(moved.spec_abs()) {
        if S::spec_zero().spec_less(vold) {
            let arg = S::spec_int(1).spec_plus(moved.spec_over(vt));
            if S::spec_zero().spec_less(arg) {
                vold.spec_plus(vt.spec_times(arg.spec_ln()))
            } else {
                vcrit
            }
        } else {
            vt.spec_times(vnew.spec_over(vt).spec_ln())
        }
    } else {
        vnew
    }
}

/// Bound the move of a junction voltage, so that the exponential does not
/// overflow and the iteration does not oscillate.
pub fn pnjlim<S: Scalar>(vnew: S, vold: S, vt: S, vcrit: S) -> (r: S)
    ensures
        r == limited(vnew, vold, vt, vcrit),
{
    let moved: S = vnew.minus(vold);
    if vcrit.less(vnew) && S::from_int(2).times(vt).less(moved.abs()) {
        if S::zero().less(vold) {
            let arg: S = S::from_int(1).plus(moved.over(vt));
            if S::zero().less(arg) {
                vold.plus(vt.times(arg.ln()))
            } else {
                vcrit
            }
        } else {
            vt.times(vnew.over(vt).ln())
        }
    } else {
        vnew
    }
}

/// The voltage where the junction curve bends most.
pub open spec fn critical<S: Scalar>(is: S, vt: S) -> S {
    vt.spec_times(vt.spec_over(S::spec_int(2).spec_sqrt().spec_times(is)).spec_ln())
}

pub fn vcrit<S: Scalar>(is: S, vt: S) -> (r: S)
    ensures
        r == critical(is, vt),
{
    vt.times(vt.over(S::from_int(2).sqrt().times(is)).ln())
}

/// The saturation current in force.
pub open spec fn diode_is<S: Scalar>(model: &DiodeModel<S>, opts: &SolverOptions<S>) -> S {
    if opts.effects.temperature {
        model.is_hot
    } else {
        model.is
    }
}

/// Current and conductance of a junction: exponential forward, leakage in
/// reverse, exponential again past breakdown.
pub open spec fn diode_point<S: Scalar>(
    model: &DiodeModel<S>,
    vd: S,
    opts: &SolverOptions<S>,
) -> (S, S) {
    let is = diode_is(model, opts);
    let nvt = model.n.spec_times(opts.spec_vt());
    if S::spec_int(-3i64).spec_times(nvt).spec_at_most(vd) {
        let e = vd.spec_over(nvt).spec_exp();
        (is.spec_times(e.spec_minus(S::spec_int(1))), is.spec_times(e).spec_over(nvt))
    } else if model.bv is None || model.bv->0.spec_negated().spec_at_most(vd) {
        (is.spec_negated(), is.spec_over(nvt).spec_times(frac(1, 1000)))
    } else {
        let bv = model.bv->0;
        let e = no_more(
            bv.spec_plus(vd).spec_negated().spec_over(nvt),
            S::spec_int(40),
        ).spec_exp();
        (is.spec_negated().spec_times(e), is.spec_times(e).spec_over(nvt))
    }
}

/// Junction current and conductance at a voltage.
pub fn diode_eval<S: Scalar>(model: &DiodeModel<S>, vd: S, opts: &SolverOptions<S>) -> (r: (S, S))
    ensures
        r == diode_point(model, vd, opts),
{
    let is: S = if opts.effects.temperature {
        model.is_hot
    } else {
        model.is
    };
    let nvt: S = model.n.times(opts.vt());
    if S::from_int(-3).times(nvt).at_most(vd) {
        let e: S = vd.over(nvt).exp();
        return (is.times(e.minus(S::from_int(1))), is.times(e).over(nvt));
    }
    match model.bv {
        Some(bv) => {
            if !bv.negated().at_most(vd) {
                let e: S = lower_to(bv.plus(vd).negated().over(nvt), S::from_int(40)).exp();
                return (is.negated().times(e), is.times(e).over(nvt));
            }
        },
        None => {},
    }
    (is.negated(), is.over(nvt).times(ratio(1, 1000)))
}

/// Whether a diode stores charge.
pub open spec fn diode_charges<S: Scalar>(
    model: &DiodeModel<S>,
    effects: &DeviceEffects<S>,
) -> bool {
    effects.junction_caps && (S::spec_zero().spec_less(model.cjo) || S::spec_zero().spec_less(
        model.tt,
    ))
}

pub fn diode_has_charge<S: Scalar>(model: &DiodeModel<S>, effects: &DeviceEffects<S>) -> (r: bool)
    ensures
        r == diode_charges(model, effects),
{
    effects.junction_caps && (S::zero().less(model.cjo) || S::zero().less(model.tt))
}

/// Depletion charge and capacitance of a graded junction. Above half the
/// built-in potential the capacitance continues linearly, with matching value
/// and slope.
pub open spec fn depletion<S: Scalar>(cjo: S, vj: S, m: S, vd: S) -> (S, S) {
    let one = S::spec_int(1);
    let half = frac::<S>(1, 2);
    let rest = one.spec_minus(half);
    let fcv = half.spec_times(vj);
    let flat = one.spec_minus(m).spec_abs().spec_less(frac(1, 1_000_000_000));
    if vd.spec_less(fcv) {
        let arg = one.spec_minus(vd.spec_over(vj));
        let sarg = arg.spec_pow(m.spec_negated());
        let q = if flat {
            cjo.spec_negated().spec_times(vj).spec_times(arg.spec_ln())
        } else {
            cjo.spec_times(vj).spec_times(one.spec_minus(arg.spec_times(sarg))).spec_over(
                one.spec_minus(m),
            )
        };
        (q, cjo.spec_times(sarg))
    } else {
        let f2 = rest.spec_pow(one.spec_plus(m));
        let f3 = one.spec_minus(half.spec_times(one.spec_plus(m)));
        let f1 = if flat {
            vj.spec_negated().spec_times(rest.spec_ln())
        } else {
            vj.spec_times(one.spec_minus(rest.spec_pow(one.spec_minus(m)))).spec_over(
                one.spec_minus(m),
            )
        };
        let c = cjo.spec_times(f3.spec_plus(m.spec_times(vd).spec_over(vj))).spec_over(f2);
        let linear = f3.spec_times(vd.spec_minus(fcv));
        let square = m.spec_over(S::spec_int(2).spec_times(vj)).spec_times(
            vd.spec_times(vd).spec_minus(fcv.spec_times(fcv)),
        );
        let q = cjo.spec_times(f1.spec_plus(linear.spec_plus(square).spec_over(f2)));
        (q, c)
    }
}

pub fn depletion_charge<S: Scalar>(cjo: S, vj: S, m: S, vd: S) -> (r: (S, S))
    ensures
        r == depletion(cjo, vj, m, vd),
{
    let one: S = S::from_int(1);
    let half: S = ratio(1, 2);
    let rest: S = one.minus(half);
    let fcv: S = half.times(vj);
    let flat: bool = one.minus(m).abs().less(ratio(1, 1_000_000_000));
    if vd.less(fcv) {
        let arg: S = one.minus(vd.over(vj));
        let sarg: S = arg.pow(m.negated());
        let q: S = if flat {
            cjo.negated().times(vj).times(arg.ln())
        } else {
            cjo.times(vj).times(one.minus(arg.times(sarg))).over(one.minus(m))
        };
        (q, cjo.times(sarg))
    } else {
        let f2: S = rest.pow(one.plus(m));
        let f3: S = one.minus(half.times(one.plus(m)));
        let f1: S = if flat {
            vj.negated().times(rest.ln())
        } else {
            vj.times(one.minus(rest.pow(one.minus(m)))).over(one.minus(m))
        };
        let c: S = cjo.times(f3.plus(m.times(vd).over(vj))).over(f2);
        let linear: S = f3.times(vd.minus(fcv));
        let square: S = m.over(S::from_int(2).times(vj)).times(
            vd.times(vd).minus(fcv.times(fcv)),
        );
        (cjo.times(f1.plus(linear.plus(square).over(f2))), c)
    }
}

/// A stored charge and its capacitance: depletion where `cj` is positive, plus
/// diffusion where the transit time is.
pub open spec fn stored<S: Scalar>(
    cj: S,
    vj: S,
    m: S,
    transit: S,
    v: S,
    current: S,
    tangent: S,
) -> (S, S) {
    let zero = S::spec_zero();
    let (q1, c1) = if zero.spec_less(cj) {
        let (qj, cap) = depletion(cj, vj, m, v);
        (zero.spec_plus(qj), zero.spec_plus(cap))
    } else {
        (zero, zero)
    };
    if zero.spec_less(transit) {
        (q1.spec_plus(transit.spec_times(current)), c1.spec_plus(transit.spec_times(tangent)))
    } else {
        (q1, c1)
    }
}

pub fn stored_charge<S: Scalar>(
    cj: S,
    vj: S,
    m: S,
    transit: S,
    v: S,
    current: S,
    tangent: S,
) -> (r: (S, S))
    ensures
        r == stored(cj, vj, m, transit, v, current, tangent),
{
    let zero: S = S::zero();
    let mut q: S = zero;
    let mut c: S = zero;
    if zero.less(cj) {
        let (qj, cap) = depletion_charge(cj, vj, m, v);
        q = q.plus(qj);
        c = c.plus(cap);
    }
    if zero.less(transit) {
        q = q.plus(transit.times(current));
        c = c.plus(transit.times(tangent));
    }
    (q, c)
}

/// A diode's stored charge and capacitance, given its current and conductance.
pub fn diode_charge<S: Scalar>(model: &DiodeModel<S>, vd: S, id: S, gd: S) -> (r: (S, S))
    ensures
        r == stored(model.cjo, model.vj, model.m, model.tt, vd, id, gd),
{
    stored_charge(model.cjo, model.vj, model.m, model.tt, vd, id, gd)
}

/// The conductance and the current of a charge companion: `g * C`, and the
/// discrete charge current less its linear part.
pub open spec fn companion<S: Scalar>(
    ctx: &StampCtx<S>,
    q: S,
    c: S,
    v: S,
    x1: S,
    dx1: S,
    x2: S,
) -> (S, S) {
    let geq = ctx.coeffs.g.spec_times(c);
    let hist = charge_history(ctx.opts.integration, ctx.coeffs, x1, dx1, x2);
    (
        geq,
        ctx.coeffs.g.spec_times(q).spec_minus(hist).spec_minus(geq.spec_times(v)),
    )
}

pub fn charge_companion<S: Scalar>(
    ctx: &StampCtx<S>,
    q: S,
    c: S,
    v: S,
    x1: S,
    dx1: S,
    x2: S,
) -> (r: (S, S))
    ensures
        r == companion(ctx, q, c, v, x1, dx1, x2),
{
    let geq: S = ctx.coeffs.g.times(c);
    let hist: S = history(ctx.opts.integration, ctx.coeffs, x1, dx1, x2);
    (geq, ctx.coeffs.g.times(q).minus(hist).minus(geq.times(v)))
}

/// The junction voltage a diode is linearized at.
pub open spec fn diode_voltage<S: Scalar>(
    ctx: &StampCtx<S>,
    a: NodeId,
    k: NodeId,
    model: &DiodeModel<S>,
) -> S {
    let is = diode_is(model, ctx.opts);
    let nvt = model.n.spec_times(ctx.opts.spec_vt());
    let vc = critical(is, nvt);
    let raw = ctx.spec_v(a).spec_minus(ctx.spec_v(k));
    let last = ctx.spec_v_prev(a).spec_minus(ctx.spec_v_prev(k));
    let vd = match model.bv {
        Some(bv) => if raw.spec_less(
            no_more(S::spec_int(10).spec_times(nvt).spec_minus(bv), S::spec_zero()),
        ) {
            limited(
                raw.spec_plus(bv).spec_negated(),
                last.spec_plus(bv).spec_negated(),
                nvt,
                vc,
            ).spec_plus(bv).spec_negated()
        } else {
            limited(raw, last, nvt, vc)
        },
        None => limited(raw, last, nvt, vc),
    };
    let top = vc.spec_plus(frac(4, 10));
    if S::spec_zero().spec_less(ctx.branch_reg) && top.spec_less(vd) {
        top
    } else {
        vd
    }
}

fn junction_voltage<S: Scalar>(
    ctx: &StampCtx<S>,
    a: NodeId,
    k: NodeId,
    model: &DiodeModel<S>,
) -> (r: S)
    requires
        ctx.wf(),
    ensures
        r == diode_voltage(ctx, a, k, model),
{
    let is: S = if ctx.opts.effects.temperature {
        model.is_hot
    } else {
        model.is
    };
    let nvt: S = model.n.times(ctx.opts.vt());
    let vc: S = vcrit(is, nvt);
    let raw: S = ctx.v(a).minus(ctx.v(k));
    let last: S = ctx.last_vd(a, k);
    let vd: S = match model.bv {
        Some(bv) => if raw.less(lower_to(S::from_int(10).times(nvt).minus(bv), S::zero())) {
            pnjlim(raw.plus(bv).negated(), last.plus(bv).negated(), nvt, vc).plus(bv).negated()
        } else {
            pnjlim(raw, last, nvt, vc)
        },
        None => pnjlim(raw, last, nvt, vc),
    };
    let top: S = vc.plus(ratio(4, 10));
    if S::zero().less(ctx.branch_reg) && top.less(vd) {
        top
    } else {
        vd
    }
}

/// A diode: the Newton tangent of the junction, and a charge companion where it
/// stores charge. Series resistance is not modelled.
pub open spec fn put_diode<S: Scalar>(
    ctx: &StampCtx<S>,
    id: DeviceId,
    a: NodeId,
    k: NodeId,
    model: &DiodeModel<S>,
    t: Seq<Write<S>>,
) -> Seq<Write<S>> {
    let ai = ctx.ix(a);
    let ki = ctx.ix(k);
    let vd = diode_voltage(ctx, a, k, model);
    let (idc, gd_raw) = diode_point(model, vd, ctx.opts);
    let gd = at_least(gd_raw, ctx.opts.gmin);
    let dc = put_current(
        put_pair(t, ai, ki, gd),
        ai,
        ki,
        idc.spec_minus(gd.spec_times(vd)),
    );
    if ctx.dc || !diode_charges(model, &ctx.opts.effects) {
        dc
    } else {
        let d = id.0 as int;
        let (q, c) = stored(model.cjo, model.vj, model.m, model.tt, vd, idc, gd_raw);
        let (geq, ieq) = companion(
            ctx,
            q,
            c,
            vd,
            ctx.state.x1@[d],
            ctx.state.dx1@[d],
            ctx.state.x2@[d],
        );
        put_current(put_pair(dc, ai, ki, geq), ai, ki, ieq)
    }
}

pub fn stamp_diode<S: Scalar>(
    ctx: &StampCtx<S>,
    id: DeviceId,
    a: NodeId,
    k: NodeId,
    model: &DiodeModel<S>,
    out: &mut Vec<Write<S>>,
)
    requires
        ctx.wf(),
        id.0 < ctx.circuit.devices@.len(),
    ensures
        final(out)@ == put_diode(ctx, id, a, k, model, old(out)@),
{
    let ai = ctx.node(a);
    let ki = ctx.node(k);
    let vd: S = junction_voltage(ctx, a, k, model);
    let (idc, gd_raw) = diode_eval(model, vd, ctx.opts);
    let gd: S = raise(gd_raw, ctx.opts.gmin);
    add_pair(out, ai, ki, gd);
    stamp_current(out, ai, ki, idc.minus(gd.times(vd)));
    if ctx.dc || !diode_has_charge(model, &ctx.opts.effects) {
        return;
    }
    let d: usize = id.0 as usize;
    let (q, c) = diode_charge(model, vd, idc, gd_raw);
    let (geq, ieq) = charge_companion(
        ctx,
        q,
        c,
        vd,
        ctx.state.x1[d],
        ctx.state.dx1[d],
        ctx.state.x2[d],
    );
    add_pair(out, ai, ki, geq);
    stamp_current(out, ai, ki, ieq);
}

/// Which requested effects a stamp could not honour, each noted once.
#[derive(Debug, Default)]
pub struct EffectLog {
    pub diode_series_r: bool,
}

/// Whether a diode asks for a series resistance that is not stamped.
pub open spec fn drops_series_resistance<S: Scalar>(
    model: &DiodeModel<S>,
    effects: &DeviceEffects<S>,
) -> bool {
    effects.series_resistance && S::spec_zero().spec_less(model.rs)
}

/// Set a flag; whether it was set for the first time, so that its note is due.
pub fn log_once(flag: &mut bool) -> (due: bool)
    ensures
        *final(flag),
        due == !*old(flag),
{
    let due: bool = !*flag;
    *flag = true;
    due
}

/// Note a series resistance that is not stamped; whether the note is due now.
pub fn note_dishonored<S: Scalar>(
    model: &DiodeModel<S>,
    effects: &DeviceEffects<S>,
    log: &mut EffectLog,
) -> (due: bool)
    ensures
        final(log).diode_series_r == (old(log).diode_series_r || drops_series_resistance(
            model,
            effects,
        )),
        due == (drops_series_resistance(model, effects) && !old(log).diode_series_r),
{
    if effects.series_resistance && S::zero().less(model.rs) {
        log_once(&mut log.diode_series_r)
    } else {
        false
    }
}

/// Whether some diode among the first `count` devices asks for a series resistance that
/// is not stamped.
pub open spec fn dishonored<S: Scalar>(
    devices: Seq<Device<S>>,
    effects: &DeviceEffects<S>,
    count: int,
) -> bool {
    exists|d: int| 0 <= d < count && #[trigger] dishonored_at(devices, effects, d)
}

/// Whether a device is a diode that asks for a series resistance that is not stamped.
pub open spec fn dishonored_at<S: Scalar>(
    devices: Seq<Device<S>>,
    effects: &DeviceEffects<S>,
    d: int,
) -> bool {
    devices[d] matches Device::Diode { model, .. } && drops_series_resistance(&model, effects)
}

/// Note what a circuit asks for and no stamp honours; whether the note is due now.
pub fn note_circuit<S: Scalar>(
    circuit: &Circuit<S>,
    effects: &DeviceEffects<S>,
    log: &mut EffectLog,
) -> (due: bool)
    ensures
        final(log).diode_series_r == (old(log).diode_series_r || dishonored(
            circuit.devices@,
            effects,
            circuit.devices@.len() as int,
        )),
        due == (dishonored(circuit.devices@, effects, circuit.devices@.len() as int) && !old(
            log,
        ).diode_series_r),
{
    let ghost before = log.diode_series_r;
    let mut due: bool = false;
    let mut d: usize = 0;
    while d < circuit.devices.len()
        invariant
            d <= circuit.devices@.len(),
            before == old(log).diode_series_r,
            log.diode_series_r == (before || dishonored(circuit.devices@, effects, d as int)),
            due == (dishonored(circuit.devices@, effects, d as int) && !before),
        decreases circuit.devices@.len() - d,
    {
        let ghost devices = circuit.devices@;
        match &circuit.devices[d] {
            Device::Diode { model, .. } => {
                if note_dishonored(model, effects, log) {
                    due = true;
                }
            },
            _ => {},
        }
        proof {
            assert(dishonored(devices, effects, d + 1) == (dishonored(devices, effects, d as int)
                || dishonored_at(devices, effects, d as int))) by {
                if dishonored(devices, effects, d as int) {
                    let e = choose|e: int| 0 <= e < d && dishonored_at(devices, effects, e);
                    assert(dishonored_at(devices, effects, e));
                }
            }
        }
        d = d + 1;
    }
    due
}

} // verus!
