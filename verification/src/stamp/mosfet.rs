//! The MOS transistor.
use vstd::prelude::*;

use crate::circuit::{Circuit, DeviceId, MosfetModel, NodeId};
use crate::options::{DeviceEffects, SolverOptions};
use crate::scalar::Scalar;
use crate::stamp::bjt::{
    clamped_exp, first_of, held_exp, or_else, put_folded, put_series, stamp_folded, stamp_series,
};
use crate::stamp::context::{
    at, at_least, frac, lemma_node_range, raise, ratio, value_at, StampCtx,
};
use crate::stamp::junction::{
    charge_companion, companion, critical, depletion, depletion_charge, limited, pnjlim, vcrit,
};
use crate::stamp::tape::{
    add_pair, add_transconductance, inject, put_i, put_pair, put_transconductance, Write,
};
use crate::system::{lemma_taken, mos_unknowns, Layout, Pool, SecondaryBank};

verus! {

/// Whether a MOS transistor stores charge.
pub open spec fn mos_charges<S: Scalar>(model: &MosfetModel<S>, effects: &DeviceEffects<S>) -> bool {
    effects.junction_caps && (model.gate_charge || S::spec_zero().spec_less(model.cbd)
        || S::spec_zero().spec_less(model.cbs))
}

pub fn mos_has_charge<S: Scalar>(model: &MosfetModel<S>, effects: &DeviceEffects<S>) -> (r: bool)
    ensures
        r == mos_charges(model, effects),
{
    effects.junction_caps && (model.gate_charge || S::zero().less(model.cbd) || S::zero().less(
        model.cbs,
    ))
}

/// `ln(1 + e^x)`, without overflow at either end.
pub open spec fn soft_plus<S: Scalar>(x: S) -> S {
    if S::spec_int(40).spec_less(x) {
        x
    } else if x.spec_less(S::spec_int(-40i64)) {
        x.spec_exp()
    } else {
        x.spec_exp().spec_ln_1p()
    }
}

pub fn softplus<S: Scalar>(x: S) -> (r: S)
    ensures
        r == soft_plus(x),
{
    if S::from_int(40).less(x) {
        x
    } else if x.less(S::from_int(-40)) {
        x.exp()
    } else {
        x.exp().ln_1p()
    }
}

/// `1 / (1 + e^-x)`, without overflow at either end.
pub open spec fn logistic<S: Scalar>(x: S) -> S {
    let one = S::spec_int(1);
    if S::spec_zero().spec_at_most(x) {
        one.spec_over(one.spec_plus(x.spec_negated().spec_exp()))
    } else {
        x.spec_exp().spec_over(one.spec_plus(x.spec_exp()))
    }
}

pub fn sigmoid<S: Scalar>(x: S) -> (r: S)
    ensures
        r == logistic(x),
{
    let one: S = S::from_int(1);
    if S::zero().at_most(x) {
        one.over(one.plus(x.negated().exp()))
    } else {
        let e: S = x.exp();
        e.over(one.plus(e))
    }
}

/// Channel current, transconductance and output conductance at an overdrive and
/// a non-negative drain voltage. The overdrive is smoothed through zero, so that
/// current and transconductance are continuous across the threshold.
pub open spec fn channel<S: Scalar>(
    beta: S,
    nvt: S,
    vov: S,
    vds: S,
    lambda: S,
    gmin: S,
) -> (S, S, S) {
    let half = frac::<S>(1, 2);
    let two_nvt = S::spec_int(2).spec_times(nvt);
    let u = vov.spec_over(two_nvt);
    let eff = two_nvt.spec_times(soft_plus(u));
    let slope = logistic(u);
    let clm = S::spec_int(1).spec_plus(lambda.spec_times(vds));
    if vds.spec_less(eff) {
        let core = eff.spec_times(vds).spec_minus(half.spec_times(vds).spec_times(vds));
        (
            beta.spec_times(core).spec_times(clm),
            at_least(beta.spec_times(vds).spec_times(clm).spec_times(slope), gmin),
            at_least(
                beta.spec_times(
                    eff.spec_minus(vds).spec_times(clm).spec_plus(core.spec_times(lambda)),
                ),
                gmin,
            ),
        )
    } else {
        let square = half.spec_times(beta).spec_times(eff).spec_times(eff);
        (
            square.spec_times(clm),
            at_least(beta.spec_times(eff).spec_times(clm).spec_times(slope), gmin),
            at_least(square.spec_times(lambda), gmin),
        )
    }
}

pub fn mos_channel<S: Scalar>(beta: S, nvt: S, vov: S, vds: S, lambda: S, gmin: S) -> (r: (S, S, S))
    ensures
        r == channel(beta, nvt, vov, vds, lambda, gmin),
{
    let half: S = ratio(1, 2);
    let two_nvt: S = S::from_int(2).times(nvt);
    let u: S = vov.over(two_nvt);
    let eff: S = two_nvt.times(softplus(u));
    let slope: S = sigmoid(u);
    let clm: S = S::from_int(1).plus(lambda.times(vds));
    if vds.less(eff) {
        let core: S = eff.times(vds).minus(half.times(vds).times(vds));
        (
            beta.times(core).times(clm),
            raise(beta.times(vds).times(clm).times(slope), gmin),
            raise(beta.times(eff.minus(vds).times(clm).plus(core.times(lambda))), gmin),
        )
    } else {
        let square: S = half.times(beta).times(eff).times(eff);
        (
            square.times(clm),
            raise(beta.times(eff).times(clm).times(slope), gmin),
            raise(square.times(lambda), gmin),
        )
    }
}

/// Gate-source charge and capacitance: overlap, and an oxide part that falls to
/// half across the threshold.
pub open spec fn gate_source<S: Scalar>(c_ov: S, c_ox: S, vth: S, delta: S, v: S) -> (S, S) {
    let q = c_ov.spec_times(v);
    if S::spec_zero().spec_less(c_ox) {
        let two = S::spec_int(2);
        let over = v.spec_minus(vth);
        let u = over.spec_over(delta);
        (
            q.spec_plus(
                c_ox.spec_times(
                    over.spec_minus(delta.spec_times(soft_plus(u)).spec_over(two)),
                ),
            ),
            c_ov.spec_plus(
                c_ox.spec_times(S::spec_int(1).spec_minus(logistic(u).spec_over(two))),
            ),
        )
    } else {
        (q, c_ov)
    }
}

pub fn mos_charge_gs<S: Scalar>(c_ov: S, c_ox: S, vth: S, delta: S, v: S) -> (r: (S, S))
    ensures
        r == gate_source(c_ov, c_ox, vth, delta, v),
{
    let q: S = c_ov.times(v);
    if S::zero().less(c_ox) {
        let two: S = S::from_int(2);
        let over: S = v.minus(vth);
        let u: S = over.over(delta);
        (
            q.plus(c_ox.times(over.minus(delta.times(softplus(u)).over(two)))),
            c_ov.plus(c_ox.times(S::from_int(1).minus(sigmoid(u).over(two)))),
        )
    } else {
        (q, c_ov)
    }
}

/// Gate-drain charge and capacitance: overlap, and an oxide part that rises to
/// half across the threshold.
pub open spec fn gate_drain<S: Scalar>(c_ov: S, c_ox: S, vth: S, delta: S, v: S) -> (S, S) {
    let q = c_ov.spec_times(v);
    if S::spec_zero().spec_less(c_ox) {
        let u = v.spec_minus(vth).spec_over(delta);
        let share = frac::<S>(1, 2).spec_times(c_ox);
        (
            q.spec_plus(share.spec_times(delta).spec_times(soft_plus(u))),
            c_ov.spec_plus(share.spec_times(logistic(u))),
        )
    } else {
        (q, c_ov)
    }
}

pub fn mos_charge_gd<S: Scalar>(c_ov: S, c_ox: S, vth: S, delta: S, v: S) -> (r: (S, S))
    ensures
        r == gate_drain(c_ov, c_ox, vth, delta, v),
{
    let q: S = c_ov.times(v);
    if S::zero().less(c_ox) {
        let u: S = v.minus(vth).over(delta);
        let share: S = ratio::<S>(1, 2).times(c_ox);
        (q.plus(share.times(delta).times(softplus(u))), c_ov.plus(share.times(sigmoid(u))))
    } else {
        (q, c_ov)
    }
}

/// Width of the charge transition: `2 * max(n_sub, 1) * Vt`.
pub open spec fn transition<S: Scalar>(model: &MosfetModel<S>, opts: &SolverOptions<S>) -> S {
    S::spec_int(2).spec_times(at_least(model.n_sub, S::spec_int(1))).spec_times(opts.spec_vt())
}

fn transition_width<S: Scalar>(model: &MosfetModel<S>, opts: &SolverOptions<S>) -> (r: S)
    ensures
        r == transition(model, opts),
{
    S::from_int(2).times(raise(model.n_sub, S::from_int(1))).times(opts.vt())
}

/// Charge of a bulk junction, zero where it has no capacitance.
pub open spec fn bulk_charge<S: Scalar>(model: &MosfetModel<S>, c: S, v: S) -> S {
    if S::spec_zero().spec_less(c) {
        depletion(c, model.pb, model.mj, v).0
    } else {
        S::spec_zero()
    }
}

fn bulk_charge_at<S: Scalar>(model: &MosfetModel<S>, c: S, v: S) -> (r: S)
    ensures
        r == bulk_charge(model, c, v),
{
    if S::zero().less(c) {
        depletion_charge(c, model.pb, model.mj, v).0
    } else {
        S::zero()
    }
}

/// The four stored charges at given junction voltages: gate-source, gate-drain,
/// bulk-drain, bulk-source.
pub open spec fn mos_stored<S: Scalar>(
    model: &MosfetModel<S>,
    vgs: S,
    vgd: S,
    vbd: S,
    vbs: S,
    opts: &SolverOptions<S>,
) -> (S, S, S, S) {
    let delta = transition(model, opts);
    (
        gate_source(model.cgs_ov, model.c_ox, model.vto, delta, vgs).0,
        gate_drain(model.cgd_ov, model.c_ox, model.vto, delta, vgd).0,
        bulk_charge(model, model.cbd, vbd),
        bulk_charge(model, model.cbs, vbs),
    )
}

pub fn mos_charges_at<S: Scalar>(
    model: &MosfetModel<S>,
    vgs: S,
    vgd: S,
    vbd: S,
    vbs: S,
    opts: &SolverOptions<S>,
) -> (r: (S, S, S, S))
    ensures
        r == mos_stored(model, vgs, vgd, vbd, vbs, opts),
{
    let delta: S = transition_width(model, opts);
    (
        mos_charge_gs(model.cgs_ov, model.c_ox, model.vto, delta, vgs).0,
        mos_charge_gd(model.cgd_ov, model.c_ox, model.vto, delta, vgd).0,
        bulk_charge_at(model, model.cbd, vbd),
        bulk_charge_at(model, model.cbs, vbs),
    )
}

/// The unknowns the transistor sits on: drain, gate, source and bulk.
pub type MosNodes = (Option<usize>, Option<usize>, Option<usize>, Option<usize>);

/// The unknowns the transistor sits on: drain and source behind their series
/// resistances where those are modelled, the terminals otherwise. The bulk is the
/// source where none is given.
pub open spec fn mos_nodes<S: Scalar>(
    layout: &Layout<S>,
    id: DeviceId,
    d: NodeId,
    g: NodeId,
    s: NodeId,
    b: Option<NodeId>,
    effects: &DeviceEffects<S>,
) -> MosNodes {
    let ints = layout.mos_internal_of@[id.0 as int]@;
    let di = if effects.series_resistance {
        or_else(ints[0], layout.spec_node(d))
    } else {
        layout.spec_node(d)
    };
    let si = if effects.series_resistance {
        or_else(ints[1], layout.spec_node(s))
    } else {
        layout.spec_node(s)
    };
    let bi = match b {
        Some(b) => layout.spec_node(b),
        None => si,
    };
    (di, layout.spec_node(g), si, bi)
}

/// Whether all of the unknowns are below `size`.
pub open spec fn mos_within(nodes: MosNodes, size: int) -> bool {
    &&& nodes.0 is Some ==> nodes.0->0 < size
    &&& nodes.1 is Some ==> nodes.1->0 < size
    &&& nodes.2 is Some ==> nodes.2->0 < size
    &&& nodes.3 is Some ==> nodes.3->0 < size
}

pub fn mos_effective_nodes<S: Scalar>(
    circuit: &Circuit<S>,
    layout: &Layout<S>,
    id: DeviceId,
    d: NodeId,
    g: NodeId,
    s: NodeId,
    b: Option<NodeId>,
    effects: &DeviceEffects<S>,
) -> (r: MosNodes)
    requires
        circuit.wf(),
        layout.lays_out(circuit),
        id.0 < circuit.devices@.len(),
    ensures
        r == mos_nodes(layout, id, d, g, s, b, effects),
        mos_within(r, layout.size as int),
{
    proof {
        lemma_node_range(circuit, layout, d);
        lemma_node_range(circuit, layout, g);
        lemma_node_range(circuit, layout, s);
        if b is Some {
            lemma_node_range(circuit, layout, b->0);
        }
        lemma_mos_range(circuit, layout, id.0 as int);
    }
    let mut di = layout.node(d);
    let mut si = layout.node(s);
    if effects.series_resistance {
        let ints = &layout.mos_internal_of[id.0 as usize];
        di = first_of(ints[0], di);
        si = first_of(ints[1], si);
    }
    let bi = match b {
        Some(b) => layout.node(b),
        None => si,
    };
    (di, layout.node(g), si, bi)
}

/// Internal unknowns are node unknowns beyond the external ones.
pub proof fn lemma_mos_range<S: Scalar>(circuit: &Circuit<S>, layout: &Layout<S>, d: int)
    requires
        layout.lays_out(circuit),
        0 <= d < circuit.devices@.len(),
    ensures
        forall|k: int|
            0 <= k < 2 ==> match #[trigger] layout.mos_internal_of@[d]@[k] {
                Some(i) => layout.external() <= i < layout.n_nodes <= layout.size,
                None => true,
            },
{
    let devices = circuit.devices@;
    let ext = layout.external();
    assert(layout.mos_internal_of@[d]@ == mos_unknowns(devices, ext, d));
    lemma_taken(devices, Pool::Mosfet, d as nat, devices.len());
    assert forall|k: int| 0 <= k < 2 implies match #[trigger] layout.mos_internal_of@[d]@[k] {
        Some(i) => layout.external() <= i < layout.n_nodes <= layout.size,
        None => true,
    } by {
        assert(k == 0 || k == 1);
    }
}

/// The junction voltages, with the polarity folded in: gate-source, gate-drain,
/// bulk-drain, bulk-source.
pub open spec fn mos_voltages<S: Scalar>(x: Seq<S>, nodes: MosNodes, sign: S) -> (S, S, S, S) {
    let (d, g, s, bulk) = nodes;
    (
        sign.spec_times(at(x, g).spec_minus(at(x, s))),
        sign.spec_times(at(x, g).spec_minus(at(x, d))),
        sign.spec_times(at(x, bulk).spec_minus(at(x, d))),
        sign.spec_times(at(x, bulk).spec_minus(at(x, s))),
    )
}

pub fn mos_junction_voltages<S: Scalar>(x: &[S], nodes: MosNodes, sign: S) -> (r: (S, S, S, S))
    requires
        mos_within(nodes, x@.len() as int),
    ensures
        r == mos_voltages(x@, nodes, sign),
{
    let vd: S = value_at(x, nodes.0);
    let vg: S = value_at(x, nodes.1);
    let vs: S = value_at(x, nodes.2);
    let vb: S = value_at(x, nodes.3);
    (
        sign.times(vg.minus(vs)),
        sign.times(vg.minus(vd)),
        sign.times(vb.minus(vd)),
        sign.times(vb.minus(vs)),
    )
}

/// The threshold and its slope in the bulk voltage, with the body effect.
pub open spec fn threshold<S: Scalar>(model: &MosfetModel<S>, vbs: S) -> (S, S) {
    let phi = at_least(model.phi, frac(1, 1_000_000));
    let arg = phi.spec_minus(vbs);
    let root = phi.spec_sqrt();
    if S::spec_zero().spec_less(arg) {
        let sq = arg.spec_sqrt();
        (
            model.vto.spec_plus(model.gamma.spec_times(sq.spec_minus(root))),
            model.gamma.spec_negated().spec_over(
                S::spec_int(2).spec_times(at_least(sq, frac::<S>(1, 1000).spec_times(root))),
            ),
        )
    } else {
        (
            model.vto.spec_plus(model.gamma.spec_times(S::spec_zero().spec_minus(root))),
            S::spec_zero(),
        )
    }
}

fn body_threshold<S: Scalar>(model: &MosfetModel<S>, vbs: S) -> (r: (S, S))
    ensures
        r == threshold(model, vbs),
{
    let phi: S = raise(model.phi, ratio(1, 1_000_000));
    let arg: S = phi.minus(vbs);
    let root: S = phi.sqrt();
    if S::zero().less(arg) {
        let sq: S = arg.sqrt();
        (
            model.vto.plus(model.gamma.times(sq.minus(root))),
            model.gamma.negated().over(
                S::from_int(2).times(raise(sq, ratio::<S>(1, 1000).times(root))),
            ),
        )
    } else {
        (model.vto.plus(model.gamma.times(S::zero().minus(root))), S::zero())
    }
}

/// The channel at the iterate, in N space with the drain the higher terminal.
pub struct ChannelPoint<S> {
    /// Whether drain and source exchanged roles.
    pub swap: bool,
    pub vgs: S,
    pub vds: S,
    /// Bulk to effective source, where the body effect is modelled.
    pub vbs: S,
    pub body_effect: bool,
    pub ids: S,
    pub gm: S,
    pub gds: S,
    /// Bulk transconductance.
    pub gmb: S,
}

pub open spec fn channel_point<S: Scalar>(
    ctx: &StampCtx<S>,
    nodes: MosNodes,
    has_bulk: bool,
    model: &MosfetModel<S>,
) -> ChannelPoint<S> {
    let sign = model.polarity.spec_sign::<S>();
    let zero = S::spec_zero();
    let vd0 = sign.spec_times(at(ctx.x@, nodes.0));
    let vg = sign.spec_times(at(ctx.x@, nodes.1));
    let vs0 = sign.spec_times(at(ctx.x@, nodes.2));
    let swap = vd0.spec_less(vs0);
    let vd = if swap {
        vs0
    } else {
        vd0
    };
    let vs = if swap {
        vd0
    } else {
        vs0
    };
    let vgs = vg.spec_minus(vs);
    let vds = vd.spec_minus(vs);
    let body_effect = zero.spec_less(model.gamma) && has_bulk;
    let vbs = if body_effect {
        sign.spec_times(at(ctx.x@, nodes.3)).spec_minus(vs)
    } else {
        zero
    };
    let (vth, dvth) = if body_effect {
        threshold(model, vbs)
    } else {
        (model.vto, zero)
    };
    let lambda = if ctx.opts.effects.early_effect {
        model.lambda
    } else {
        zero
    };
    let nvt = at_least(model.n_sub, S::spec_int(1)).spec_times(ctx.opts.spec_vt());
    let (ids, gm, gds) = channel(
        model.beta,
        nvt,
        vgs.spec_minus(vth),
        vds,
        lambda,
        ctx.opts.gmin,
    );
    ChannelPoint {
        swap,
        vgs,
        vds,
        vbs,
        body_effect,
        ids,
        gm,
        gds,
        gmb: gm.spec_negated().spec_times(dvth),
    }
}

fn channel_eval<S: Scalar>(
    ctx: &StampCtx<S>,
    nodes: MosNodes,
    has_bulk: bool,
    model: &MosfetModel<S>,
) -> (r: ChannelPoint<S>)
    requires
        ctx.wf(),
        mos_within(nodes, ctx.layout.size as int),
    ensures
        r == channel_point(ctx, nodes, has_bulk, model),
{
    let sign: S = model.polarity.sign();
    let vd0: S = sign.times(value_at(ctx.x, nodes.0));
    let vg: S = sign.times(value_at(ctx.x, nodes.1));
    let vs0: S = sign.times(value_at(ctx.x, nodes.2));
    let swap: bool = vd0.less(vs0);
    let vd: S = if swap {
        vs0
    } else {
        vd0
    };
    let vs: S = if swap {
        vd0
    } else {
        vs0
    };
    let vgs: S = vg.minus(vs);
    let vds: S = vd.minus(vs);
    let body_effect: bool = S::zero().less(model.gamma) && has_bulk;
    let mut vbs: S = S::zero();
    let mut vth: S = model.vto;
    let mut dvth: S = S::zero();
    if body_effect {
        vbs = sign.times(value_at(ctx.x, nodes.3)).minus(vs);
        let (v, dv) = body_threshold(model, vbs);
        vth = v;
        dvth = dv;
    }
    let lambda: S = if ctx.opts.effects.early_effect {
        model.lambda
    } else {
        S::zero()
    };
    let nvt: S = raise(model.n_sub, S::from_int(1)).times(ctx.opts.vt());
    let (ids, gm, gds) = mos_channel(
        model.beta,
        nvt,
        vgs.minus(vth),
        vds,
        lambda,
        ctx.opts.gmin,
    );
    ChannelPoint {
        swap,
        vgs,
        vds,
        vbs,
        body_effect,
        ids,
        gm,
        gds,
        gmb: gm.negated().times(dvth),
    }
}

/// The channel tangent.
pub open spec fn put_channel<S: Scalar>(
    p: &ChannelPoint<S>,
    nodes: MosNodes,
    sign: S,
    t: Seq<Write<S>>,
) -> Seq<Write<S>> {
    let (di, gi, si, bi) = nodes;
    let dn = if p.swap {
        si
    } else {
        di
    };
    let sn = if p.swap {
        di
    } else {
        si
    };
    let t1 = put_pair(t, dn, sn, p.gds);
    let t2 = put_transconductance(t1, dn, sn, gi, sn, p.gm);
    let base = p.ids.spec_minus(p.gm.spec_times(p.vgs)).spec_minus(p.gds.spec_times(p.vds));
    let t3 = if p.body_effect {
        put_transconductance(t2, dn, sn, bi, sn, p.gmb)
    } else {
        t2
    };
    let ieq = if p.body_effect {
        base.spec_minus(p.gmb.spec_times(p.vbs))
    } else {
        base
    };
    let signed = sign.spec_times(ieq);
    put_i(put_i(t3, dn, signed.spec_negated()), sn, signed)
}

fn stamp_channel<S: Scalar>(
    p: &ChannelPoint<S>,
    nodes: MosNodes,
    sign: S,
    out: &mut Vec<Write<S>>,
)
    ensures
        final(out)@ == put_channel(p, nodes, sign, old(out)@),
{
    let (di, gi, si, bi) = nodes;
    let dn = if p.swap {
        si
    } else {
        di
    };
    let sn = if p.swap {
        di
    } else {
        si
    };
    add_pair(out, dn, sn, p.gds);
    add_transconductance(out, dn, sn, gi, sn, p.gm);
    let mut ieq: S = p.ids.minus(p.gm.times(p.vgs)).minus(p.gds.times(p.vds));
    if p.body_effect {
        add_transconductance(out, dn, sn, bi, sn, p.gmb);
        ieq = ieq.minus(p.gmb.times(p.vbs));
    }
    let signed: S = sign.times(ieq);
    inject(out, dn, signed.negated());
    inject(out, sn, signed);
}

/// A bulk junction: its Shockley branch, and its depletion charge.
pub open spec fn put_body<S: Scalar>(
    ctx: &StampCtx<S>,
    id: DeviceId,
    model: &MosfetModel<S>,
    bi: Option<usize>,
    ti: Option<usize>,
    cap: S,
    bank: SecondaryBank<S>,
    t: Seq<Write<S>>,
) -> Seq<Write<S>> {
    let d = id.0 as int;
    let zero = S::spec_zero();
    let sign = model.polarity.spec_sign::<S>();
    let vt = ctx.opts.spec_vt();
    if ti == bi {
        t
    } else {
        let raw = sign.spec_times(at(ctx.x@, bi).spec_minus(at(ctx.x@, ti)));
        let last = sign.spec_times(at(ctx.x_prev@, bi).spec_minus(at(ctx.x_prev@, ti)));
        let conducts = zero.spec_less(model.body_is);
        let vj = if conducts {
            limited(raw, last, vt, critical(model.body_is, vt))
        } else {
            raw
        };
        let e = held_exp(vj, vt);
        let gj = at_least(model.body_is.spec_times(e).spec_over(vt), ctx.opts.gmin);
        let ij = model.body_is.spec_times(e.spec_minus(S::spec_int(1)));
        let t1 = if conducts {
            put_folded(bi, ti, (gj, ij.spec_minus(gj.spec_times(vj))), sign, t)
        } else {
            t
        };
        if !ctx.dc && ctx.opts.effects.junction_caps && zero.spec_less(cap) {
            let (q, c) = depletion(cap, model.pb, model.mj, vj);
            put_folded(
                bi,
                ti,
                companion(ctx, q, c, vj, bank.x1@[d], bank.dx1@[d], bank.x2@[d]),
                sign,
                t1,
            )
        } else {
            t1
        }
    }
}

fn stamp_body<S: Scalar>(
    ctx: &StampCtx<S>,
    id: DeviceId,
    model: &MosfetModel<S>,
    bi: Option<usize>,
    ti: Option<usize>,
    cap: S,
    bank: &SecondaryBank<S>,
    out: &mut Vec<Write<S>>,
)
    requires
        ctx.wf(),
        id.0 < ctx.circuit.devices@.len(),
        bank.sized(ctx.circuit.devices@.len()),
        bi is Some ==> bi->0 < ctx.layout.size,
        ti is Some ==> ti->0 < ctx.layout.size,
    ensures
        final(out)@ == put_body(ctx, id, model, bi, ti, cap, *bank, old(out)@),
{
    if ti == bi {
        return;
    }
    let d: usize = id.0 as usize;
    let sign: S = model.polarity.sign();
    let vt: S = ctx.opts.vt();
    let raw: S = sign.times(value_at(ctx.x, bi).minus(value_at(ctx.x, ti)));
    let mut vj: S = raw;
    if S::zero().less(model.body_is) {
        let last: S = sign.times(value_at(ctx.x_prev, bi).minus(value_at(ctx.x_prev, ti)));
        vj = pnjlim(raw, last, vt, vcrit(model.body_is, vt));
        let e: S = clamped_exp(vj, vt);
        let ij: S = model.body_is.times(e.minus(S::from_int(1)));
        let gj: S = raise(model.body_is.times(e).over(vt), ctx.opts.gmin);
        stamp_folded(bi, ti, (gj, ij.minus(gj.times(vj))), sign, out);
    }
    if !ctx.dc && ctx.opts.effects.junction_caps && S::zero().less(cap) {
        let (q, c) = depletion_charge(cap, model.pb, model.mj, vj);
        let pair = charge_companion(ctx, q, c, vj, bank.x1[d], bank.dx1[d], bank.x2[d]);
        stamp_folded(bi, ti, pair, sign, out);
    }
}

/// The charges of gate and channel at the terminals.
pub open spec fn put_gate<S: Scalar>(
    ctx: &StampCtx<S>,
    id: DeviceId,
    model: &MosfetModel<S>,
    di: Option<usize>,
    gi: Option<usize>,
    si: Option<usize>,
    t: Seq<Write<S>>,
) -> Seq<Write<S>> {
    let d = id.0 as int;
    let sign = model.polarity.spec_sign::<S>();
    let delta = transition(model, ctx.opts);
    let vgs = sign.spec_times(at(ctx.x@, gi).spec_minus(at(ctx.x@, si)));
    let vgd = sign.spec_times(at(ctx.x@, gi).spec_minus(at(ctx.x@, di)));
    let (q_gs, c_gs) = gate_source(model.cgs_ov, model.c_ox, model.vto, delta, vgs);
    let (q_gd, c_gd) = gate_drain(model.cgd_ov, model.c_ox, model.vto, delta, vgd);
    let bank = ctx.state.xb@[0];
    let gs = companion(
        ctx,
        q_gs,
        c_gs,
        vgs,
        ctx.state.x1@[d],
        ctx.state.dx1@[d],
        ctx.state.x2@[d],
    );
    let gd = companion(ctx, q_gd, c_gd, vgd, bank.x1@[d], bank.dx1@[d], bank.x2@[d]);
    put_folded(gi, di, gd, sign, put_folded(gi, si, gs, sign, t))
}

fn stamp_gate<S: Scalar>(
    ctx: &StampCtx<S>,
    id: DeviceId,
    model: &MosfetModel<S>,
    di: Option<usize>,
    gi: Option<usize>,
    si: Option<usize>,
    out: &mut Vec<Write<S>>,
)
    requires
        ctx.wf(),
        id.0 < ctx.circuit.devices@.len(),
        di is Some ==> di->0 < ctx.layout.size,
        gi is Some ==> gi->0 < ctx.layout.size,
        si is Some ==> si->0 < ctx.layout.size,
    ensures
        final(out)@ == put_gate(ctx, id, model, di, gi, si, old(out)@),
{
    let d: usize = id.0 as usize;
    let sign: S = model.polarity.sign();
    let delta: S = transition_width(model, ctx.opts);
    let vg: S = value_at(ctx.x, gi);
    let vgs: S = sign.times(vg.minus(value_at(ctx.x, si)));
    let vgd: S = sign.times(vg.minus(value_at(ctx.x, di)));
    let (q_gs, c_gs) = mos_charge_gs(model.cgs_ov, model.c_ox, model.vto, delta, vgs);
    let gs = charge_companion(
        ctx,
        q_gs,
        c_gs,
        vgs,
        ctx.state.x1[d],
        ctx.state.dx1[d],
        ctx.state.x2[d],
    );
    stamp_folded(gi, si, gs, sign, out);
    let (q_gd, c_gd) = mos_charge_gd(model.cgd_ov, model.c_ox, model.vto, delta, vgd);
    let bank = &ctx.state.xb[0];
    let gd = charge_companion(ctx, q_gd, c_gd, vgd, bank.x1[d], bank.dx1[d], bank.x2[d]);
    stamp_folded(gi, di, gd, sign, out);
}

/// The series resistances of drain and source.
pub open spec fn put_ohmic<S: Scalar>(
    ctx: &StampCtx<S>,
    id: DeviceId,
    d: NodeId,
    s: NodeId,
    model: &MosfetModel<S>,
    t: Seq<Write<S>>,
) -> Seq<Write<S>> {
    let on = ctx.opts.effects.series_resistance;
    let ints = ctx.layout.mos_internal_of@[id.0 as int]@;
    let drain = put_series(ctx.ix(d), ints[0], model.rd, on, t);
    put_series(ctx.ix(s), ints[1], model.rs, on, drain)
}

/// The transistor behind its series resistances: the channel tangent, its bulk
/// junctions and its gate charges.
pub open spec fn put_intrinsic<S: Scalar>(
    ctx: &StampCtx<S>,
    id: DeviceId,
    nodes: MosNodes,
    has_bulk: bool,
    model: &MosfetModel<S>,
    t: Seq<Write<S>>,
) -> Seq<Write<S>> {
    let sign = model.polarity.spec_sign::<S>();
    let (di, gi, si, bi) = nodes;
    let p = channel_point(ctx, nodes, has_bulk, model);
    let t1 = put_channel(&p, nodes, sign, t);
    let t2 = if model.body_diode {
        let drain = put_body(ctx, id, model, bi, di, model.cbd, ctx.state.xb@[1], t1);
        put_body(ctx, id, model, bi, si, model.cbs, ctx.state.xb@[2], drain)
    } else {
        t1
    };
    if !ctx.dc && ctx.opts.effects.junction_caps && model.gate_charge {
        put_gate(ctx, id, model, di, gi, si, t2)
    } else {
        t2
    }
}

/// A MOS transistor: its series resistances, and the transistor behind them.
pub open spec fn put_mosfet<S: Scalar>(
    ctx: &StampCtx<S>,
    id: DeviceId,
    d: NodeId,
    g: NodeId,
    s: NodeId,
    b: Option<NodeId>,
    model: &MosfetModel<S>,
    t: Seq<Write<S>>,
) -> Seq<Write<S>> {
    put_intrinsic(
        ctx,
        id,
        mos_nodes(ctx.layout, id, d, g, s, b, &ctx.opts.effects),
        b is Some,
        model,
        put_ohmic(ctx, id, d, s, model, t),
    )
}

pub fn stamp_mosfet<S: Scalar>(
    ctx: &StampCtx<S>,
    id: DeviceId,
    d: NodeId,
    g: NodeId,
    s: NodeId,
    b: Option<NodeId>,
    model: &MosfetModel<S>,
    out: &mut Vec<Write<S>>,
)
    requires
        ctx.wf(),
        id.0 < ctx.circuit.devices@.len(),
    ensures
        final(out)@ == put_mosfet(ctx, id, d, g, s, b, model, old(out)@),
{
    let sign: S = model.polarity.sign();
    let on: bool = ctx.opts.effects.series_resistance;
    let ints = &ctx.layout.mos_internal_of[id.0 as usize];
    stamp_series(ctx.node(d), ints[0], model.rd, on, out);
    stamp_series(ctx.node(s), ints[1], model.rs, on, out);
    let nodes = mos_effective_nodes(ctx.circuit, ctx.layout, id, d, g, s, b, &ctx.opts.effects);
    let (di, gi, si, bi) = nodes;
    let p = channel_eval(ctx, nodes, b.is_some(), model);
    stamp_channel(&p, nodes, sign, out);
    if model.body_diode {
        stamp_body(ctx, id, model, bi, di, model.cbd, &ctx.state.xb[1], out);
        stamp_body(ctx, id, model, bi, si, model.cbs, &ctx.state.xb[2], out);
    }
    if !ctx.dc && ctx.opts.effects.junction_caps && model.gate_charge {
        stamp_gate(ctx, id, model, di, gi, si, out);
    }
}

/// A transistor sits behind a series resistance exactly where those are modelled and it
/// has an unknown there, and on its terminal otherwise; its gate is never behind one, and
/// without a bulk node its bulk is its source.
pub proof fn law_a_transistor_sits_behind_its_resistances<S: Scalar>(
    layout: &Layout<S>,
    id: DeviceId,
    d: NodeId,
    g: NodeId,
    s: NodeId,
    b: Option<NodeId>,
    effects: &DeviceEffects<S>,
)
    ensures
        ({
            let (di, gi, si, bi) = mos_nodes(layout, id, d, g, s, b, effects);
            let ints = layout.mos_internal_of@[id.0 as int]@;
            &&& effects.series_resistance && ints[0] is Some ==> di == ints[0]
            &&& !effects.series_resistance || ints[0] is None ==> di == layout.spec_node(d)
            &&& effects.series_resistance && ints[1] is Some ==> si == ints[1]
            &&& !effects.series_resistance || ints[1] is None ==> si == layout.spec_node(s)
            &&& gi == layout.spec_node(g)
            &&& b is None ==> bi == si
            &&& b is Some ==> bi == layout.spec_node(b->0)
        }),
{
}

} // verus!
