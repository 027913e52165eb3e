//! Resistors, reactive devices and sources.
use vstd::prelude::*;

use crate::circuit::{Circuit, Device, DeviceId, NodeId};
use crate::options::{Integration, SolverOptions};
use crate::scalar::Scalar;
use crate::stamp::context::{at_least, frac, raise, ratio, IntegCoeffs, StampCtx};
use crate::stamp::tape::{
    add_incidence, add_pair, inject, push_g, put_current, put_g, put_i, put_incidence, put_pair,
    put_transconductance, stamp_current, Write,
};
use crate::system::{couplings_resolve, partners, Layout};

verus! {

/// The resistance at the model temperature.
pub open spec fn resistance<S: Scalar>(ohms: S, tc1: Option<S>, opts: &SolverOptions<S>) -> S {
    match tc1 {
        Some(tc) => if opts.effects.temperature {
            ohms.spec_times(
                S::spec_int(1).spec_plus(tc.spec_times(opts.model_temp.spec_minus(S::spec_int(27)))),
            )
        } else {
            ohms
        },
        None => ohms,
    }
}

pub fn resistor_value<S: Scalar>(ohms: S, tc1: Option<S>, opts: &SolverOptions<S>) -> (r: S)
    ensures
        r == resistance(ohms, tc1, opts),
{
    match tc1 {
        Some(tc) => if opts.effects.temperature {
            ohms.times(S::from_int(1).plus(tc.times(opts.model_temp.minus(S::from_int(27)))))
        } else {
            ohms
        },
        None => ohms,
    }
}

/// The conductance a resistance stamps: nothing is below a microohm, so a zero or
/// negative resistance is a short.
pub open spec fn short_free_conductance<S: Scalar>(r: S) -> S {
    S::spec_int(1).spec_over(at_least(r, frac(1, 1_000_000)))
}

pub fn conductance<S: Scalar>(r: S) -> (g: S)
    ensures
        g == short_free_conductance(r),
{
    S::from_int(1).over(raise(r, ratio(1, 1_000_000)))
}

/// The history current of a capacitor.
pub open spec fn capacitor_history<S: Scalar>(
    method: Integration,
    k: IntegCoeffs<S>,
    c: S,
    v1: S,
    dv1: S,
    v2: S,
) -> S {
    match method {
        Integration::Trapezoidal => k.g.spec_times(c).spec_times(v1).spec_plus(c.spec_times(dv1)),
        Integration::Gear2 => c.spec_times(
            k.a1.spec_times(v1).spec_minus(k.a2.spec_times(v2)),
        ),
        Integration::BackwardEuler => c.spec_times(k.a1).spec_times(v1),
    }
}

/// The history voltage of an inductance, own or mutual.
pub open spec fn inductor_history<S: Scalar>(
    method: Integration,
    k: IntegCoeffs<S>,
    l: S,
    i1: S,
    di1: S,
    i2: S,
) -> S {
    match method {
        Integration::Trapezoidal => l.spec_times(k.g).spec_times(i1).spec_plus(l.spec_times(di1)),
        Integration::Gear2 => l.spec_times(
            k.a1.spec_times(i1).spec_minus(k.a2.spec_times(i2)),
        ),
        Integration::BackwardEuler => l.spec_times(k.a1).spec_times(i1),
    }
}

fn flux_history<S: Scalar>(
    method: Integration,
    k: IntegCoeffs<S>,
    l: S,
    i1: S,
    di1: S,
    i2: S,
) -> (r: S)
    ensures
        r == inductor_history(method, k, l, i1, di1, i2),
{
    match method {
        Integration::Trapezoidal => l.times(k.g).times(i1).plus(l.times(di1)),
        Integration::Gear2 => l.times(k.a1.times(i1).minus(k.a2.times(i2))),
        Integration::BackwardEuler => l.times(k.a1).times(i1),
    }
}

/// A capacitor: open in an operating point, unless held at its initial condition
/// by a stiff conductance; a companion conductance and current otherwise.
pub open spec fn put_capacitor<S: Scalar>(
    ctx: &StampCtx<S>,
    id: DeviceId,
    a: NodeId,
    b: NodeId,
    c: S,
    ic: Option<S>,
    t: Seq<Write<S>>,
) -> Seq<Write<S>> {
    let ai = ctx.ix(a);
    let bi = ctx.ix(b);
    if ctx.dc {
        match ic {
            Some(vic) => if ctx.use_ic {
                let gpin = S::spec_int(1_000_000_000);
                put_current(put_pair(t, ai, bi, gpin), ai, bi, gpin.spec_negated().spec_times(vic))
            } else {
                t
            },
            None => t,
        }
    } else {
        let d = id.0 as int;
        let ieq = capacitor_history(
            ctx.opts.integration,
            ctx.coeffs,
            c,
            ctx.state.x1@[d],
            ctx.state.dx1@[d],
            ctx.state.x2@[d],
        );
        put_current(
            put_pair(t, ai, bi, ctx.coeffs.g.spec_times(c)),
            ai,
            bi,
            ieq.spec_negated(),
        )
    }
}

pub fn stamp_capacitor<S: Scalar>(
    ctx: &StampCtx<S>,
    id: DeviceId,
    a: NodeId,
    b: NodeId,
    c: S,
    ic: Option<S>,
    out: &mut Vec<Write<S>>,
)
    requires
        ctx.wf(),
        id.0 < ctx.circuit.devices@.len(),
    ensures
        final(out)@ == put_capacitor(ctx, id, a, b, c, ic, old(out)@),
{
    let ai = ctx.node(a);
    let bi = ctx.node(b);
    if ctx.dc {
        if ctx.use_ic {
            match ic {
                Some(vic) => {
                    let gpin: S = S::from_int(1_000_000_000);
                    add_pair(out, ai, bi, gpin);
                    stamp_current(out, ai, bi, gpin.negated().times(vic));
                },
                None => {},
            }
        }
        return;
    }
    let d: usize = id.0 as usize;
    let geq: S = ctx.coeffs.g.times(c);
    let v1: S = ctx.state.x1[d];
    let dv1: S = ctx.state.dx1[d];
    let ieq: S = match ctx.opts.integration {
        Integration::Trapezoidal => geq.times(v1).plus(c.times(dv1)),
        Integration::Gear2 => c.times(
            ctx.coeffs.a1.times(v1).minus(ctx.coeffs.a2.times(ctx.state.x2[d])),
        ),
        Integration::BackwardEuler => c.times(ctx.coeffs.a1).times(v1),
    };
    add_pair(out, ai, bi, geq);
    stamp_current(out, ai, bi, ieq.negated());
}

/// The mutual terms of the first `count` partners of a winding.
pub open spec fn put_mutuals<S: Scalar>(
    ctx: &StampCtx<S>,
    br: Option<usize>,
    partners: Seq<(DeviceId, S)>,
    count: nat,
    t: Seq<Write<S>>,
) -> Seq<Write<S>>
    decreases count,
{
    if count == 0 {
        t
    } else {
        let before = put_mutuals(ctx, br, partners, (count - 1) as nat, t);
        let (pid, m) = partners[count - 1];
        let d = pid.0 as int;
        let veq = inductor_history(
            ctx.opts.integration,
            ctx.coeffs,
            m,
            ctx.state.x1@[d],
            ctx.state.dx1@[d],
            ctx.state.x2@[d],
        );
        put_i(
            put_g(before, br, ctx.br(pid), m.spec_times(ctx.coeffs.g).spec_negated()),
            br,
            veq.spec_negated(),
        )
    }
}

/// An inductor: held at its initial current, or a short, in an operating point;
/// a companion resistance and voltage otherwise, with the mutual terms of the
/// windings it is coupled to.
pub open spec fn put_inductor<S: Scalar>(
    ctx: &StampCtx<S>,
    id: DeviceId,
    a: NodeId,
    b: NodeId,
    l: S,
    ic: Option<S>,
    t: Seq<Write<S>>,
) -> Seq<Write<S>> {
    let one = S::spec_int(1);
    let br = ctx.br(id);
    let ai = ctx.ix(a);
    let bi = ctx.ix(b);
    let kcl = put_g(put_g(t, ai, br, one), bi, br, one.spec_negated());
    if ctx.dc && ctx.use_ic && ic is Some {
        put_i(put_g(kcl, br, br, one), br, ic->0)
    } else {
        let row = put_g(put_g(kcl, br, ai, one), br, bi, one.spec_negated());
        if ctx.dc {
            row
        } else {
            let d = id.0 as int;
            let veq = inductor_history(
                ctx.opts.integration,
                ctx.coeffs,
                l,
                ctx.state.x1@[d],
                ctx.state.dx1@[d],
                ctx.state.x2@[d],
            );
            let own = put_i(
                put_g(row, br, br, l.spec_times(ctx.coeffs.g).spec_negated()),
                br,
                veq.spec_negated(),
            );
            let partners = ctx.layout.couplings@[d]@;
            put_mutuals(ctx, br, partners, partners.len(), own)
        }
    }
}

pub fn stamp_inductor<S: Scalar>(
    ctx: &StampCtx<S>,
    id: DeviceId,
    a: NodeId,
    b: NodeId,
    l: S,
    ic: Option<S>,
    out: &mut Vec<Write<S>>,
)
    requires
        ctx.wf(),
        id.0 < ctx.circuit.devices@.len(),
    ensures
        final(out)@ == put_inductor(ctx, id, a, b, l, ic, old(out)@),
{
    let one: S = S::from_int(1);
    let br = ctx.branch(id);
    let ai = ctx.node(a);
    let bi = ctx.node(b);
    let ghost start = out@;
    push_g(out, ai, br, one);
    push_g(out, bi, br, one.negated());
    if ctx.dc && ctx.use_ic {
        match ic {
            Some(iic) => {
                push_g(out, br, br, one);
                inject(out, br, iic);
                return;
            },
            None => {},
        }
    }
    push_g(out, br, ai, one);
    push_g(out, br, bi, one.negated());
    if ctx.dc {
        return;
    }
    let d: usize = id.0 as usize;
    let req: S = l.times(ctx.coeffs.g);
    let veq: S = flux_history(
        ctx.opts.integration,
        ctx.coeffs,
        l,
        ctx.state.x1[d],
        ctx.state.dx1[d],
        ctx.state.x2[d],
    );
    push_g(out, br, br, req.negated());
    inject(out, br, veq.negated());
    let ghost own = out@;
    let partners = ctx.layout.mutual_partners(id);
    proof {
        lemma_layout_partners(ctx.circuit, ctx.layout, d as int);
    }
    let mut k: usize = 0;
    while k < partners.len()
        invariant
            k <= partners@.len(),
            ctx.wf(),
            id.0 < ctx.circuit.devices@.len(),
            partners@ == ctx.layout.couplings@[id.0 as int]@,
            forall|j: int|
                0 <= j < partners@.len() ==> (#[trigger] partners@[j]).0.0
                    < ctx.circuit.devices@.len(),
            out@ == put_mutuals(ctx, br, partners@, k as nat, own),
        decreases partners@.len() - k,
    {
        let (pid, m) = partners[k];
        let p: usize = pid.0 as usize;
        let pbr = ctx.branch(pid);
        push_g(out, br, pbr, m.times(ctx.coeffs.g).negated());
        let veq_m: S = flux_history(
            ctx.opts.integration,
            ctx.coeffs,
            m,
            ctx.state.x1[p],
            ctx.state.dx1[p],
            ctx.state.x2[p],
        );
        inject(out, br, veq_m.negated());
        k = k + 1;
    }
}

/// The windings a device is coupled to are inductors of the circuit.
pub proof fn lemma_layout_partners<S: Scalar>(circuit: &Circuit<S>, layout: &Layout<S>, d: int)
    requires
        layout.lays_out(circuit),
        couplings_resolve(circuit.devices@),
        0 <= d < circuit.devices@.len(),
    ensures
        forall|j: int|
            #![trigger layout.couplings@[d]@[j]]
            0 <= j < layout.couplings@[d]@.len() ==> {
                let p = layout.couplings@[d]@[j].0;
                p.0 < circuit.devices@.len() && circuit.devices@[p.0 as int] is Inductor
            },
{
    let devices = circuit.devices@;
    assert(layout.couplings@[d]@ == partners(devices, d, devices.len()));
    lemma_partners_upto(devices, d, devices.len());
}

proof fn lemma_partners_upto<S: Scalar>(
    devices: Seq<Device<S>>,
    d: int,
    count: nat,
)
    requires
        couplings_resolve(devices),
        count <= devices.len(),
    ensures
        forall|j: int|
            #![trigger partners(devices, d, count)[j]]
            0 <= j < partners(devices, d, count).len() ==> {
                let p = partners(devices, d, count)[j].0;
                p.0 < devices.len() && devices[p.0 as int] is Inductor
            },
    decreases count,
{
    if count > 0 {
        lemma_partners_upto(devices, d, (count - 1) as nat);
        let dev = devices[count - 1];
        assert(dev is Coupling ==> match dev {
            Device::Coupling { l1, l2, .. } => l1.0 < devices.len() && l2.0
                < devices.len() && devices[l1.0 as int] is Inductor
                && devices[l2.0 as int] is Inductor,
            _ => true,
        });
    }
}

/// An ideal voltage source.
pub open spec fn put_vsource<S: Scalar>(
    ctx: &StampCtx<S>,
    id: DeviceId,
    p: NodeId,
    n: NodeId,
    t: Seq<Write<S>>,
) -> Seq<Write<S>> {
    let br = ctx.br(id);
    put_i(
        put_incidence(t, ctx.ix(p), ctx.ix(n), br),
        br,
        ctx.spec_source(id).spec_times(ctx.src_scale),
    )
}

pub fn stamp_vsource<S: Scalar>(
    ctx: &StampCtx<S>,
    id: DeviceId,
    p: NodeId,
    n: NodeId,
    out: &mut Vec<Write<S>>,
)
    requires
        ctx.wf(),
        id.0 < ctx.circuit.devices@.len(),
    ensures
        final(out)@ == put_vsource(ctx, id, p, n, old(out)@),
{
    let br = ctx.branch(id);
    add_incidence(out, ctx.node(p), ctx.node(n), br);
    inject(out, br, ctx.source_value(id).times(ctx.src_scale));
}

/// An independent current source.
pub open spec fn put_isource<S: Scalar>(
    ctx: &StampCtx<S>,
    id: DeviceId,
    p: NodeId,
    n: NodeId,
    t: Seq<Write<S>>,
) -> Seq<Write<S>> {
    put_current(t, ctx.ix(p), ctx.ix(n), ctx.spec_source(id).spec_times(ctx.src_scale))
}

/// A voltage-controlled voltage source: `v_p - v_n - gain * (v_cp - v_cn) = 0`.
pub open spec fn put_vcvs<S: Scalar>(
    ctx: &StampCtx<S>,
    id: DeviceId,
    p: NodeId,
    n: NodeId,
    cp: NodeId,
    cn: NodeId,
    gain: S,
    t: Seq<Write<S>>,
) -> Seq<Write<S>> {
    let br = ctx.br(id);
    let row = put_incidence(t, ctx.ix(p), ctx.ix(n), br);
    put_g(put_g(row, br, ctx.ix(cp), gain.spec_negated()), br, ctx.ix(cn), gain)
}

pub fn stamp_vcvs<S: Scalar>(
    ctx: &StampCtx<S>,
    id: DeviceId,
    p: NodeId,
    n: NodeId,
    cp: NodeId,
    cn: NodeId,
    gain: S,
    out: &mut Vec<Write<S>>,
)
    requires
        ctx.wf(),
        id.0 < ctx.circuit.devices@.len(),
    ensures
        final(out)@ == put_vcvs(ctx, id, p, n, cp, cn, gain, old(out)@),
{
    let br = ctx.branch(id);
    add_incidence(out, ctx.node(p), ctx.node(n), br);
    push_g(out, br, ctx.node(cp), gain.negated());
    push_g(out, br, ctx.node(cn), gain);
}

/// A voltage-controlled current source.
pub open spec fn put_vccs<S: Scalar>(
    ctx: &StampCtx<S>,
    p: NodeId,
    n: NodeId,
    cp: NodeId,
    cn: NodeId,
    gm: S,
    t: Seq<Write<S>>,
) -> Seq<Write<S>> {
    put_transconductance(t, ctx.ix(p), ctx.ix(n), ctx.ix(cp), ctx.ix(cn), gm)
}

/// A current-controlled current source.
pub open spec fn put_cccs<S: Scalar>(
    ctx: &StampCtx<S>,
    p: NodeId,
    n: NodeId,
    ctrl: DeviceId,
    gain: S,
    t: Seq<Write<S>>,
) -> Seq<Write<S>> {
    let cbr = ctx.br(ctrl);
    put_g(put_g(t, ctx.ix(p), cbr, gain), ctx.ix(n), cbr, gain.spec_negated())
}

/// A current-controlled voltage source: `v_p - v_n - transres * i_ctrl = 0`.
pub open spec fn put_ccvs<S: Scalar>(
    ctx: &StampCtx<S>,
    id: DeviceId,
    p: NodeId,
    n: NodeId,
    ctrl: DeviceId,
    transres: S,
    t: Seq<Write<S>>,
) -> Seq<Write<S>> {
    let br = ctx.br(id);
    put_g(
        put_incidence(t, ctx.ix(p), ctx.ix(n), br),
        br,
        ctx.br(ctrl),
        transres.spec_negated(),
    )
}

pub fn stamp_ccvs<S: Scalar>(
    ctx: &StampCtx<S>,
    id: DeviceId,
    p: NodeId,
    n: NodeId,
    ctrl: DeviceId,
    transres: S,
    out: &mut Vec<Write<S>>,
)
    requires
        ctx.wf(),
        id.0 < ctx.circuit.devices@.len(),
        ctrl.0 < ctx.circuit.devices@.len(),
    ensures
        final(out)@ == put_ccvs(ctx, id, p, n, ctrl, transres, old(out)@),
{
    let br = ctx.branch(id);
    let cbr = ctx.branch(ctrl);
    add_incidence(out, ctx.node(p), ctx.node(n), br);
    push_g(out, br, cbr, transres.negated());
}

} // verus!
