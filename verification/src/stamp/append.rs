//! A device's contribution does not depend on what is on the tape before it.
use vstd::prelude::*;

use crate::circuit::{BDep, Device, DeviceId, MosfetModel, NodeId};
use crate::scalar::Scalar;
use crate::stamp::behavioral::{put_branch_partials, put_current_partials};
use crate::stamp::bjt::put_series;
use crate::stamp::context::StampCtx;
use crate::stamp::device::put_device;
use crate::stamp::linear::{inductor_history, put_mutuals};
use crate::stamp::mosfet::{
    channel_point, mos_nodes, put_body, put_channel, put_gate, put_intrinsic, put_mosfet, put_ohmic,
    ChannelPoint, MosNodes,
};
use crate::stamp::tape::{group_append, put_g, put_i, put_incidence, Write};
use crate::system::SecondaryBank;

verus! {

proof fn lemma_mutuals_append<S: Scalar>(
    ctx: &StampCtx<S>,
    br: Option<usize>,
    partners: Seq<(DeviceId, S)>,
    count: nat,
    a: Seq<Write<S>>,
    b: Seq<Write<S>>,
)
    ensures
        put_mutuals(ctx, br, partners, count, a + b) == a + put_mutuals(
            ctx,
            br,
            partners,
            count,
            b,
        ),
    decreases count,
{
    broadcast use group_append;

    if count > 0 {
        lemma_mutuals_append(ctx, br, partners, (count - 1) as nat, a, b);
    }
}

proof fn lemma_current_partials_append<S: Scalar>(
    ctx: &StampCtx<S>,
    p: Option<usize>,
    n: Option<usize>,
    deps: Seq<BDep>,
    g: Seq<S>,
    count: nat,
    a: Seq<Write<S>>,
    b: Seq<Write<S>>,
)
    ensures
        put_current_partials(ctx, p, n, deps, g, count, a + b) == a + put_current_partials(
            ctx,
            p,
            n,
            deps,
            g,
            count,
            b,
        ),
    decreases count,
{
    broadcast use group_append;

    if count > 0 {
        lemma_current_partials_append(ctx, p, n, deps, g, (count - 1) as nat, a, b);
    }
}

proof fn lemma_branch_partials_append<S: Scalar>(
    ctx: &StampCtx<S>,
    br: Option<usize>,
    deps: Seq<BDep>,
    g: Seq<S>,
    count: nat,
    a: Seq<Write<S>>,
    b: Seq<Write<S>>,
)
    ensures
        put_branch_partials(ctx, br, deps, g, count, a + b) == a + put_branch_partials(
            ctx,
            br,
            deps,
            g,
            count,
            b,
        ),
    decreases count,
{
    broadcast use group_append;

    if count > 0 {
        lemma_branch_partials_append(ctx, br, deps, g, (count - 1) as nat, a, b);
    }
}

proof fn lemma_behavioral_append<S: Scalar>(
    ctx: &StampCtx<S>,
    d: int,
    a: Seq<Write<S>>,
    b: Seq<Write<S>>,
)
    requires
        ctx.circuit.devices@[d] is Behavioral,
    ensures
        put_device(ctx, d, a + b) == a + put_device(ctx, d, b),
{
    broadcast use group_append;

    match ctx.circuit.devices@[d] {
        Device::Behavioral { p, n, output, deps, .. } => {
            match ctx.behavior@[DeviceId(d as u32).0 as int] {
                None => {},
                Some(lin) => {
                    let ip = ctx.ix(p);
                    let im = ctx.ix(n);
                    let br = ctx.br(DeviceId(d as u32));
                    let g = lin.partials@;
                    let count = deps@.len();
                    lemma_current_partials_append(ctx, ip, im, deps@, g, count, a, b);
                    lemma_branch_partials_append(
                        ctx,
                        br,
                        deps@,
                        g,
                        count,
                        a,
                        put_incidence(b, ip, im, br),
                    );
                },
            }
        },
        _ => {},
    }
}

proof fn lemma_inductor_append<S: Scalar>(
    ctx: &StampCtx<S>,
    d: int,
    a: Seq<Write<S>>,
    b: Seq<Write<S>>,
)
    requires
        ctx.circuit.devices@[d] is Inductor,
    ensures
        put_device(ctx, d, a + b) == a + put_device(ctx, d, b),
{
    broadcast use group_append;

    let id = DeviceId(d as u32);
    match ctx.circuit.devices@[d] {
        Device::Inductor { a: p, b: n, henries, ic, .. } => {
            let one = S::spec_int(1);
            let br = ctx.br(id);
            let ai = ctx.ix(p);
            let bi = ctx.ix(n);
            let partners = ctx.layout.couplings@[id.0 as int]@;
            let kcl = put_g(put_g(b, ai, br, one), bi, br, one.spec_negated());
            let row = put_g(put_g(kcl, br, ai, one), br, bi, one.spec_negated());
            let veq = inductor_history(
                ctx.opts.integration,
                ctx.coeffs,
                henries,
                ctx.state.x1@[id.0 as int],
                ctx.state.dx1@[id.0 as int],
                ctx.state.x2@[id.0 as int],
            );
            let own = put_i(
                put_g(row, br, br, henries.spec_times(ctx.coeffs.g).spec_negated()),
                br,
                veq.spec_negated(),
            );
            lemma_mutuals_append(ctx, br, partners, partners.len(), a, own);
        },
        _ => {},
    }
}

proof fn lemma_diode_append<S: Scalar>(
    ctx: &StampCtx<S>,
    d: int,
    a: Seq<Write<S>>,
    b: Seq<Write<S>>,
)
    requires
        ctx.circuit.devices@[d] is Diode,
    ensures
        put_device(ctx, d, a + b) == a + put_device(ctx, d, b),
{
    broadcast use group_append;

}

proof fn lemma_bjt_append<S: Scalar>(
    ctx: &StampCtx<S>,
    d: int,
    a: Seq<Write<S>>,
    b: Seq<Write<S>>,
)
    requires
        ctx.circuit.devices@[d] is Bjt,
    ensures
        put_device(ctx, d, a + b) == a + put_device(ctx, d, b),
{
    broadcast use group_append;

}

proof fn lemma_series_append<S: Scalar>(
    outer: Option<usize>,
    inner: Option<usize>,
    r: S,
    on: bool,
    a: Seq<Write<S>>,
    b: Seq<Write<S>>,
)
    ensures
        put_series(outer, inner, r, on, a + b) == a + put_series(outer, inner, r, on, b),
{
    broadcast use group_append;

}

proof fn lemma_channel_append<S: Scalar>(
    p: &ChannelPoint<S>,
    nodes: MosNodes,
    sign: S,
    a: Seq<Write<S>>,
    b: Seq<Write<S>>,
)
    ensures
        put_channel(p, nodes, sign, a + b) == a + put_channel(p, nodes, sign, b),
{
    broadcast use group_append;

}

proof fn lemma_body_append<S: Scalar>(
    ctx: &StampCtx<S>,
    id: DeviceId,
    model: &MosfetModel<S>,
    bi: Option<usize>,
    ti: Option<usize>,
    cap: S,
    bank: SecondaryBank<S>,
    a: Seq<Write<S>>,
    b: Seq<Write<S>>,
)
    ensures
        put_body(ctx, id, model, bi, ti, cap, bank, a + b) == a + put_body(
            ctx,
            id,
            model,
            bi,
            ti,
            cap,
            bank,
            b,
        ),
{
    broadcast use group_append;

}

proof fn lemma_gate_append<S: Scalar>(
    ctx: &StampCtx<S>,
    id: DeviceId,
    model: &MosfetModel<S>,
    di: Option<usize>,
    gi: Option<usize>,
    si: Option<usize>,
    a: Seq<Write<S>>,
    b: Seq<Write<S>>,
)
    ensures
        put_gate(ctx, id, model, di, gi, si, a + b) == a + put_gate(
            ctx,
            id,
            model,
            di,
            gi,
            si,
            b,
        ),
{
    broadcast use group_append;

}

proof fn lemma_mosfet_append<S: Scalar>(
    ctx: &StampCtx<S>,
    id: DeviceId,
    d: NodeId,
    g: NodeId,
    s: NodeId,
    body: Option<NodeId>,
    model: &MosfetModel<S>,
    a: Seq<Write<S>>,
    b: Seq<Write<S>>,
)
    ensures
        put_mosfet(ctx, id, d, g, s, body, model, a + b) == a + put_mosfet(
            ctx,
            id,
            d,
            g,
            s,
            body,
            model,
            b,
        ),
{
    let on = ctx.opts.effects.series_resistance;
    let ints = ctx.layout.mos_internal_of@[id.0 as int]@;
    lemma_series_append(ctx.ix(d), ints[0], model.rd, on, a, b);
    let drain = put_series(ctx.ix(d), ints[0], model.rd, on, b);
    lemma_series_append(ctx.ix(s), ints[1], model.rs, on, a, drain);
    let nodes = mos_nodes(ctx.layout, id, d, g, s, body, &ctx.opts.effects);
    lemma_intrinsic_append(
        ctx,
        id,
        nodes,
        body is Some,
        model,
        a,
        put_ohmic(ctx, id, d, s, model, b),
    );
}

proof fn lemma_intrinsic_append<S: Scalar>(
    ctx: &StampCtx<S>,
    id: DeviceId,
    nodes: MosNodes,
    has_bulk: bool,
    model: &MosfetModel<S>,
    a: Seq<Write<S>>,
    b: Seq<Write<S>>,
)
    ensures
        put_intrinsic(ctx, id, nodes, has_bulk, model, a + b) == a + put_intrinsic(
            ctx,
            id,
            nodes,
            has_bulk,
            model,
            b,
        ),
{
    let sign = model.polarity.spec_sign::<S>();
    let (di, gi, si, bi) = nodes;
    let p = channel_point(ctx, nodes, has_bulk, model);
    lemma_channel_append(&p, nodes, sign, a, b);
    let b1 = put_channel(&p, nodes, sign, b);
    lemma_body_append(ctx, id, model, bi, di, model.cbd, ctx.state.xb@[1], a, b1);
    let drain = put_body(ctx, id, model, bi, di, model.cbd, ctx.state.xb@[1], b1);
    lemma_body_append(ctx, id, model, bi, si, model.cbs, ctx.state.xb@[2], a, drain);
    let b2 = if model.body_diode {
        put_body(ctx, id, model, bi, si, model.cbs, ctx.state.xb@[2], drain)
    } else {
        b1
    };
    lemma_gate_append(ctx, id, model, di, gi, si, a, b2);
}

proof fn lemma_switch_append<S: Scalar>(
    ctx: &StampCtx<S>,
    d: int,
    a: Seq<Write<S>>,
    b: Seq<Write<S>>,
)
    requires
        ctx.circuit.devices@[d] is VSwitch,
    ensures
        put_device(ctx, d, a + b) == a + put_device(ctx, d, b),
{
    broadcast use group_append;

}

proof fn lemma_opamp_append<S: Scalar>(
    ctx: &StampCtx<S>,
    d: int,
    a: Seq<Write<S>>,
    b: Seq<Write<S>>,
)
    requires
        ctx.circuit.devices@[d] is OpAmp,
    ensures
        put_device(ctx, d, a + b) == a + put_device(ctx, d, b),
{
    broadcast use group_append;

}

proof fn lemma_comparator_append<S: Scalar>(
    ctx: &StampCtx<S>,
    d: int,
    a: Seq<Write<S>>,
    b: Seq<Write<S>>,
)
    requires
        ctx.circuit.devices@[d] is Comparator,
    ensures
        put_device(ctx, d, a + b) == a + put_device(ctx, d, b),
{
    broadcast use group_append;

}

/// The remaining kinds, which are linear.
proof fn lemma_linear_append<S: Scalar>(
    ctx: &StampCtx<S>,
    d: int,
    a: Seq<Write<S>>,
    b: Seq<Write<S>>,
)
    requires
        match ctx.circuit.devices@[d] {
            Device::Resistor { .. } | Device::Capacitor { .. } | Device::Vsource { .. } => true,
            Device::Isource { .. } | Device::Vcvs { .. } | Device::Vccs { .. } => true,
            Device::Cccs { .. } | Device::Ccvs { .. } | Device::Coupling { .. } => true,
            _ => false,
        },
    ensures
        put_device(ctx, d, a + b) == a + put_device(ctx, d, b),
{
    broadcast use group_append;

}

/// A device adds the same writes to any tape.
pub proof fn lemma_device_append<S: Scalar>(
    ctx: &StampCtx<S>,
    d: int,
    a: Seq<Write<S>>,
    b: Seq<Write<S>>,
)
    ensures
        put_device(ctx, d, a + b) == a + put_device(ctx, d, b),
{
    match ctx.circuit.devices@[d] {
        Device::Inductor { .. } => {
            lemma_inductor_append(ctx, d, a, b);
        },
        Device::Behavioral { .. } => {
            lemma_behavioral_append(ctx, d, a, b);
        },
        Device::Diode { .. } => {
            lemma_diode_append(ctx, d, a, b);
        },
        Device::Bjt { .. } => {
            lemma_bjt_append(ctx, d, a, b);
        },
        Device::Mosfet { d: drain, g, s, b: body, model, .. } => {
            lemma_mosfet_append(ctx, DeviceId(d as u32), drain, g, s, body, &model, a, b);
        },
        Device::VSwitch { .. } => {
            lemma_switch_append(ctx, d, a, b);
        },
        Device::OpAmp { .. } => {
            lemma_opamp_append(ctx, d, a, b);
        },
        Device::Comparator { .. } => {
            lemma_comparator_append(ctx, d, a, b);
        },
        _ => {
            lemma_linear_append(ctx, d, a, b);
        },
    }
}

/// A device's contribution to a tape is the tape, then what it writes to an empty
/// one.
pub proof fn lemma_device_on<S: Scalar>(ctx: &StampCtx<S>, d: int, t: Seq<Write<S>>)
    ensures
        put_device(ctx, d, t) == t + put_device(ctx, d, Seq::empty()),
{
    assert(t + Seq::<Write<S>>::empty() =~= t);
    lemma_device_append(ctx, d, t, Seq::empty());
}

} // verus!
