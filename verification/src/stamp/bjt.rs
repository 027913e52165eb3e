//! The bipolar transistor.
use vstd::prelude::*;

use crate::circuit::{BjtModel, Circuit, DeviceId, NodeId};
use crate::options::{DeviceEffects, SolverOptions};
use crate::scalar::Scalar;
use crate::stamp::context::{
    at, at_least, clamp, clamped, frac, lemma_node_range, raise, ratio, value_at, StampCtx,
};
use crate::stamp::junction::{
    charge_companion, companion, critical, limited, pnjlim, stored, stored_charge, vcrit,
};
use crate::stamp::tape::{
    add_pair, add_transconductance, inject, push_g, put_g, put_i, put_pair, put_transconductance,
    Write,
};
use crate::system::{bjt_unknowns, Layout};

verus! {

/// Whether a bipolar transistor stores charge.
pub open spec fn bjt_charges<S: Scalar>(model: &BjtModel<S>, effects: &DeviceEffects<S>) -> bool {
    let zero = S::spec_zero();
    effects.junction_caps && (zero.spec_less(model.cje) || zero.spec_less(model.cjc)
        || zero.spec_less(model.tf) || zero.spec_less(model.tr))
}

pub fn bjt_has_charge<S: Scalar>(model: &BjtModel<S>, effects: &DeviceEffects<S>) -> (r: bool)
    ensures
        r == bjt_charges(model, effects),
{
    let zero: S = S::zero();
    effects.junction_caps && (zero.less(model.cje) || zero.less(model.cjc) || zero.less(model.tf)
        || zero.less(model.tr))
}

/// Base-emitter charge and capacitance, with the forward transport current and
/// its tangent. The built-in potential is 0.75 and the grading 0.33.
pub open spec fn charge_be<S: Scalar>(model: &BjtModel<S>, vbe: S, cf: S, gif: S) -> (S, S) {
    stored(model.cje, frac(3, 4), frac(33, 100), model.tf, vbe, cf, gif)
}

pub fn bjt_charge_be<S: Scalar>(model: &BjtModel<S>, vbe: S, cf: S, gif: S) -> (r: (S, S))
    ensures
        r == charge_be(model, vbe, cf, gif),
{
    stored_charge(model.cje, ratio(3, 4), ratio(33, 100), model.tf, vbe, cf, gif)
}

/// Base-collector charge and capacitance, with the reverse transport current and
/// its tangent.
pub open spec fn charge_bc<S: Scalar>(model: &BjtModel<S>, vbc: S, cr: S, gir: S) -> (S, S) {
    stored(model.cjc, frac(3, 4), frac(33, 100), model.tr, vbc, cr, gir)
}

pub fn bjt_charge_bc<S: Scalar>(model: &BjtModel<S>, vbc: S, cr: S, gir: S) -> (r: (S, S))
    ensures
        r == charge_bc(model, vbc, cr, gir),
{
    stored_charge(model.cjc, ratio(3, 4), ratio(33, 100), model.tr, vbc, cr, gir)
}

/// The saturation current in force.
pub open spec fn bjt_is<S: Scalar>(model: &BjtModel<S>, opts: &SolverOptions<S>) -> S {
    if opts.effects.temperature {
        model.is_hot
    } else {
        model.is
    }
}

fn saturation<S: Scalar>(model: &BjtModel<S>, opts: &SolverOptions<S>) -> (r: S)
    ensures
        r == bjt_is(model, opts),
{
    if opts.effects.temperature {
        model.is_hot
    } else {
        model.is
    }
}

/// The exponential of a junction, its exponent held within 40.
pub open spec fn held_exp<S: Scalar>(v: S, nvt: S) -> S {
    clamped(v.spec_over(nvt), S::spec_int(-40i64), S::spec_int(40)).spec_exp()
}

pub fn clamped_exp<S: Scalar>(v: S, nvt: S) -> (r: S)
    ensures
        r == held_exp(v, nvt),
{
    clamp(v.over(nvt), S::from_int(-40), S::from_int(40)).exp()
}

/// A transport current and its tangent.
pub open spec fn transport<S: Scalar>(is: S, e: S, nvt: S) -> (S, S) {
    (is.spec_times(e.spec_minus(S::spec_int(1))), is.spec_times(e).spec_over(nvt))
}

fn transport_of<S: Scalar>(is: S, e: S, nvt: S) -> (r: (S, S))
    ensures
        r == transport(is, e, nvt),
{
    (is.times(e.minus(S::from_int(1))), is.times(e).over(nvt))
}

/// Both stored charges at given junction voltages.
pub open spec fn charges_at<S: Scalar>(
    model: &BjtModel<S>,
    vbe: S,
    vbc: S,
    opts: &SolverOptions<S>,
) -> (S, S) {
    let is = bjt_is(model, opts);
    let nvf = model.nf.spec_times(opts.spec_vt());
    let nvr = model.nr.spec_times(opts.spec_vt());
    let (cf, gif) = transport(is, held_exp(vbe, nvf), nvf);
    let (cr, gir) = transport(is, held_exp(vbc, nvr), nvr);
    (charge_be(model, vbe, cf, gif).0, charge_bc(model, vbc, cr, gir).0)
}

pub fn bjt_charges_at<S: Scalar>(
    model: &BjtModel<S>,
    vbe: S,
    vbc: S,
    opts: &SolverOptions<S>,
) -> (r: (S, S))
    ensures
        r == charges_at(model, vbe, vbc, opts),
{
    let is: S = saturation(model, opts);
    let nvf: S = model.nf.times(opts.vt());
    let nvr: S = model.nr.times(opts.vt());
    let (cf, gif) = transport_of(is, clamped_exp(vbe, nvf), nvf);
    let (cr, gir) = transport_of(is, clamped_exp(vbc, nvr), nvr);
    (bjt_charge_be(model, vbe, cf, gif).0, bjt_charge_bc(model, vbc, cr, gir).0)
}

/// The first if there is one, else the second.
pub open spec fn or_else(a: Option<usize>, b: Option<usize>) -> Option<usize> {
    if a is Some {
        a
    } else {
        b
    }
}

pub fn first_of(a: Option<usize>, b: Option<usize>) -> (r: Option<usize>)
    ensures
        r == or_else(a, b),
{
    match a {
        Some(_) => a,
        None => b,
    }
}

/// The unknowns the transistor sits on, collector, base, emitter: behind its
/// series resistances where those are modelled, the terminals otherwise.
pub open spec fn effective_nodes<S: Scalar>(
    layout: &Layout<S>,
    id: DeviceId,
    c: NodeId,
    b: NodeId,
    e: NodeId,
    effects: &DeviceEffects<S>,
) -> (Option<usize>, Option<usize>, Option<usize>) {
    let ints = layout.bjt_internal_of@[id.0 as int]@;
    if effects.series_resistance {
        (
            or_else(ints[0], layout.spec_node(c)),
            or_else(ints[1], layout.spec_node(b)),
            or_else(ints[2], layout.spec_node(e)),
        )
    } else {
        (layout.spec_node(c), layout.spec_node(b), layout.spec_node(e))
    }
}

pub fn bjt_effective_nodes<S: Scalar>(
    circuit: &Circuit<S>,
    layout: &Layout<S>,
    id: DeviceId,
    c: NodeId,
    b: NodeId,
    e: NodeId,
    effects: &DeviceEffects<S>,
) -> (r: (Option<usize>, Option<usize>, Option<usize>))
    requires
        circuit.wf(),
        layout.lays_out(circuit),
        id.0 < circuit.devices@.len(),
    ensures
        r == effective_nodes(layout, id, c, b, e, effects),
        r.0 is Some ==> r.0->0 < layout.size,
        r.1 is Some ==> r.1->0 < layout.size,
        r.2 is Some ==> r.2->0 < layout.size,
{
    proof {
        lemma_node_range(circuit, layout, c);
        lemma_node_range(circuit, layout, b);
        lemma_node_range(circuit, layout, e);
    }
    let ci = layout.node(c);
    let bi = layout.node(b);
    let ei = layout.node(e);
    if !effects.series_resistance {
        return (ci, bi, ei);
    }
    proof {
        lemma_bjt_range(circuit, layout, id.0 as int);
    }
    let ints = &layout.bjt_internal_of[id.0 as usize];
    (first_of(ints[0], ci), first_of(ints[1], bi), first_of(ints[2], ei))
}

/// Internal unknowns are node unknowns beyond the external ones.
pub proof fn lemma_bjt_range<S: Scalar>(circuit: &Circuit<S>, layout: &Layout<S>, d: int)
    requires
        layout.lays_out(circuit),
        0 <= d < circuit.devices@.len(),
    ensures
        forall|k: int|
            0 <= k < 3 ==> match #[trigger] layout.bjt_internal_of@[d]@[k] {
                Some(i) => layout.external() <= i < layout.n_nodes <= layout.size,
                None => true,
            },
{
    let devices = circuit.devices@;
    let ext = layout.external();
    assert(layout.bjt_internal_of@[d]@ == bjt_unknowns(devices, ext, d));
    crate::system::lemma_taken(devices, crate::system::Pool::Bjt, d as nat, devices.len());
    assert forall|k: int| 0 <= k < 3 implies match #[trigger] layout.bjt_internal_of@[d]@[k] {
        Some(i) => layout.external() <= i < layout.n_nodes <= layout.size,
        None => true,
    } by {
        assert(k == 0 || k == 1 || k == 2);
    }
}

/// The junction voltages `(vbe, vbc)` with the polarity folded in.
pub open spec fn junction_voltages<S: Scalar>(
    x: Seq<S>,
    nodes: (Option<usize>, Option<usize>, Option<usize>),
    sign: S,
) -> (S, S) {
    (
        sign.spec_times(at(x, nodes.1).spec_minus(at(x, nodes.2))),
        sign.spec_times(at(x, nodes.1).spec_minus(at(x, nodes.0))),
    )
}

pub fn bjt_junction_voltages<S: Scalar>(
    x: &[S],
    nodes: (Option<usize>, Option<usize>, Option<usize>),
    sign: S,
) -> (r: (S, S))
    requires
        nodes.0 is Some ==> nodes.0->0 < x@.len(),
        nodes.1 is Some ==> nodes.1->0 < x@.len(),
        nodes.2 is Some ==> nodes.2->0 < x@.len(),
    ensures
        r == junction_voltages(x@, nodes, sign),
{
    let vc: S = value_at(x, nodes.0);
    let vb: S = value_at(x, nodes.1);
    let ve: S = value_at(x, nodes.2);
    (sign.times(vb.minus(ve)), sign.times(vb.minus(vc)))
}

/// The transistor evaluated at an iterate, in N space.
pub struct BjtPoint<S> {
    pub vbe: S,
    pub vbc: S,
    /// Forward and reverse transport current, and their tangents.
    pub cf: S,
    pub cr: S,
    pub gif: S,
    pub gir: S,
    /// Base-width factor before its floor of a tenth, and after.
    pub early: S,
    pub q1_inv: S,
    /// Tangents of the base current.
    pub gpi: S,
    pub gmu: S,
    /// Forward transconductance and output conductance.
    pub gm: S,
    pub go: S,
    /// Terminal currents.
    pub ic: S,
    pub ib: S,
    pub ie: S,
}

/// The base-width factor `1 - vbc/VAF - vbe/VAR`.
pub open spec fn base_width<S: Scalar>(model: &BjtModel<S>, on: bool, vbe: S, vbc: S) -> S {
    let one = S::spec_int(1);
    if on {
        let f = match model.vaf {
            Some(vaf) => one.spec_minus(vbc.spec_over(vaf)),
            None => one,
        };
        match model.var {
            Some(var) => f.spec_minus(vbe.spec_over(var)),
            None => f,
        }
    } else {
        one
    }
}

/// The transistor at junction voltages already limited.
pub open spec fn bjt_point<S: Scalar>(
    model: &BjtModel<S>,
    opts: &SolverOptions<S>,
    vbe: S,
    vbc: S,
) -> BjtPoint<S> {
    let is = bjt_is(model, opts);
    let nvf = model.nf.spec_times(opts.spec_vt());
    let nvr = model.nr.spec_times(opts.spec_vt());
    let ef = held_exp(vbe, nvf);
    let er = held_exp(vbc, nvr);
    let (cf, gif) = transport(is, ef, nvf);
    let (cr, gir) = transport(is, er, nvr);
    let early = base_width(model, opts.effects.early_effect, vbe, vbc);
    let q1_inv = at_least(early, frac(1, 10));
    let ict = cf.spec_minus(cr).spec_times(q1_inv);
    let ibe = cf.spec_over(model.bf);
    let ibc = cr.spec_over(model.br);
    let ic = ict.spec_minus(ibc);
    let ib = ibe.spec_plus(ibc);
    BjtPoint {
        vbe,
        vbc,
        cf,
        cr,
        gif,
        gir,
        early,
        q1_inv,
        gpi: is.spec_times(ef).spec_over(nvf.spec_times(model.bf)),
        gmu: is.spec_times(er).spec_over(nvr.spec_times(model.br)),
        gm: at_least(gif.spec_times(q1_inv), opts.gmin),
        go: at_least(gir.spec_times(q1_inv), opts.gmin),
        ic,
        ib,
        ie: ic.spec_plus(ib).spec_negated(),
    }
}

pub fn bjt_eval<S: Scalar>(model: &BjtModel<S>, opts: &SolverOptions<S>, vbe: S, vbc: S) -> (r:
    BjtPoint<S>)
    ensures
        r == bjt_point(model, opts, vbe, vbc),
{
    let is: S = saturation(model, opts);
    let nvf: S = model.nf.times(opts.vt());
    let nvr: S = model.nr.times(opts.vt());
    let ef: S = clamped_exp(vbe, nvf);
    let er: S = clamped_exp(vbc, nvr);
    let (cf, gif) = transport_of(is, ef, nvf);
    let (cr, gir) = transport_of(is, er, nvr);
    let mut early: S = S::from_int(1);
    if opts.effects.early_effect {
        match model.vaf {
            Some(vaf) => {
                early = early.minus(vbc.over(vaf));
            },
            None => {},
        }
        match model.var {
            Some(var) => {
                early = early.minus(vbe.over(var));
            },
            None => {},
        }
    }
    let q1_inv: S = raise(early, ratio(1, 10));
    let ict: S = cf.minus(cr).times(q1_inv);
    let ibe: S = cf.over(model.bf);
    let ibc: S = cr.over(model.br);
    let ic: S = ict.minus(ibc);
    let ib: S = ibe.plus(ibc);
    BjtPoint {
        vbe,
        vbc,
        cf,
        cr,
        gif,
        gir,
        early,
        q1_inv,
        gpi: is.times(ef).over(nvf.times(model.bf)),
        gmu: is.times(er).over(nvr.times(model.br)),
        gm: raise(gif.times(q1_inv), opts.gmin),
        go: raise(gir.times(q1_inv), opts.gmin),
        ic,
        ib,
        ie: ic.plus(ib).negated(),
    }
}

/// The limited junction voltages at the iterate.
pub open spec fn bjt_voltages<S: Scalar>(
    ctx: &StampCtx<S>,
    model: &BjtModel<S>,
    nodes: (Option<usize>, Option<usize>, Option<usize>),
) -> (S, S) {
    let sign = model.polarity.spec_sign::<S>();
    let is = bjt_is(model, ctx.opts);
    let nvf = model.nf.spec_times(ctx.opts.spec_vt());
    let nvr = model.nr.spec_times(ctx.opts.spec_vt());
    let (be, bc) = junction_voltages(ctx.x@, nodes, sign);
    let (be_old, bc_old) = junction_voltages(ctx.x_prev@, nodes, sign);
    (
        limited(be, be_old, nvf, critical(is, nvf)),
        limited(bc, bc_old, nvr, critical(is, nvr)),
    )
}

fn limited_voltages<S: Scalar>(
    ctx: &StampCtx<S>,
    model: &BjtModel<S>,
    nodes: (Option<usize>, Option<usize>, Option<usize>),
) -> (r: (S, S))
    requires
        ctx.wf(),
        nodes.0 is Some ==> nodes.0->0 < ctx.layout.size,
        nodes.1 is Some ==> nodes.1->0 < ctx.layout.size,
        nodes.2 is Some ==> nodes.2->0 < ctx.layout.size,
    ensures
        r == bjt_voltages(ctx, model, nodes),
{
    let sign: S = model.polarity.sign();
    let is: S = saturation(model, ctx.opts);
    let nvf: S = model.nf.times(ctx.opts.vt());
    let nvr: S = model.nr.times(ctx.opts.vt());
    let (be, bc) = bjt_junction_voltages(ctx.x, nodes, sign);
    let (be_old, bc_old) = bjt_junction_voltages(ctx.x_prev, nodes, sign);
    (pnjlim(be, be_old, nvf, vcrit(is, nvf)), pnjlim(bc, bc_old, nvr, vcrit(is, nvr)))
}

/// The series resistances: a conductance to each internal node, or, where they
/// are not modelled, a unit diagonal that pins the unused unknown.
pub open spec fn put_series<S: Scalar>(
    outer: Option<usize>,
    inner: Option<usize>,
    r: S,
    on: bool,
    t: Seq<Write<S>>,
) -> Seq<Write<S>> {
    if inner is None {
        t
    } else if on {
        put_pair(t, outer, inner, S::spec_int(1).spec_over(r))
    } else {
        put_g(t, inner, inner, S::spec_int(1))
    }
}

pub fn stamp_series<S: Scalar>(
    outer: Option<usize>,
    inner: Option<usize>,
    r: S,
    on: bool,
    out: &mut Vec<Write<S>>,
)
    ensures
        final(out)@ == put_series(outer, inner, r, on, old(out)@),
{
    if inner.is_some() {
        if on {
            add_pair(out, outer, inner, S::from_int(1).over(r));
        } else {
            push_g(out, inner, inner, S::from_int(1));
        }
    }
}

/// The tangent with the true partial derivatives, for a transistor behind series
/// resistances.
pub open spec fn put_exact<S: Scalar>(
    model: &BjtModel<S>,
    early_effect: bool,
    p: &BjtPoint<S>,
    nodes: (Option<usize>, Option<usize>, Option<usize>),
    t: Seq<Write<S>>,
) -> Seq<Write<S>> {
    let (ci, bi, ei) = nodes;
    let sign = model.polarity.spec_sign::<S>();
    let zero = S::spec_zero();
    let free = early_effect && frac::<S>(1, 10).spec_less(p.early);
    let swing = p.cf.spec_minus(p.cr).spec_negated();
    let early_deriv = if free && model.vaf is Some {
        swing.spec_over(model.vaf->0)
    } else {
        zero
    };
    let var_deriv = if free && model.var is Some {
        swing.spec_over(model.var->0)
    } else {
        zero
    };
    let gc_be = p.gm.spec_plus(var_deriv);
    let gc_bc = p.gir.spec_negated().spec_times(p.q1_inv).spec_minus(p.gmu).spec_plus(early_deriv);
    let t1 = put_transconductance(t, ci, ei, bi, ei, gc_be);
    let t2 = put_transconductance(t1, ci, ei, bi, ci, gc_bc);
    let t3 = put_transconductance(t2, bi, ei, bi, ei, p.gpi);
    let t4 = put_transconductance(t3, bi, ei, bi, ci, p.gmu);
    let ic_eq = sign.spec_times(
        p.ic.spec_minus(gc_be.spec_times(p.vbe).spec_plus(gc_bc.spec_times(p.vbc))),
    );
    let ib_eq = sign.spec_times(
        p.ib.spec_minus(p.gpi.spec_times(p.vbe).spec_plus(p.gmu.spec_times(p.vbc))),
    );
    put_i(
        put_i(put_i(t4, ci, ic_eq.spec_negated()), bi, ib_eq.spec_negated()),
        ei,
        ic_eq.spec_plus(ib_eq),
    )
}

fn stamp_exact<S: Scalar>(
    model: &BjtModel<S>,
    early_effect: bool,
    p: &BjtPoint<S>,
    nodes: (Option<usize>, Option<usize>, Option<usize>),
    out: &mut Vec<Write<S>>,
)
    ensures
        final(out)@ == put_exact(model, early_effect, p, nodes, old(out)@),
{
    let (ci, bi, ei) = nodes;
    let sign: S = model.polarity.sign();
    let free: bool = early_effect && ratio::<S>(1, 10).less(p.early);
    let swing: S = p.cf.minus(p.cr).negated();
    let mut early_deriv: S = S::zero();
    let mut var_deriv: S = S::zero();
    if free {
        match model.vaf {
            Some(vaf) => {
                early_deriv = swing.over(vaf);
            },
            None => {},
        }
        match model.var {
            Some(var) => {
                var_deriv = swing.over(var);
            },
            None => {},
        }
    }
    let gc_be: S = p.gm.plus(var_deriv);
    let gc_bc: S = p.gir.negated().times(p.q1_inv).minus(p.gmu).plus(early_deriv);
    add_transconductance(out, ci, ei, bi, ei, gc_be);
    add_transconductance(out, ci, ei, bi, ci, gc_bc);
    add_transconductance(out, bi, ei, bi, ei, p.gpi);
    add_transconductance(out, bi, ei, bi, ci, p.gmu);
    let ic_eq: S = sign.times(p.ic.minus(gc_be.times(p.vbe).plus(gc_bc.times(p.vbc))));
    let ib_eq: S = sign.times(p.ib.minus(p.gpi.times(p.vbe).plus(p.gmu.times(p.vbc))));
    inject(out, ci, ic_eq.negated());
    inject(out, bi, ib_eq.negated());
    inject(out, ei, ic_eq.plus(ib_eq));
}

/// The tangent with the collector-emitter voltage as output coordinate, for a
/// transistor on its terminals.
pub open spec fn put_terminal<S: Scalar>(
    model: &BjtModel<S>,
    p: &BjtPoint<S>,
    x: Seq<S>,
    nodes: (Option<usize>, Option<usize>, Option<usize>),
    t: Seq<Write<S>>,
) -> Seq<Write<S>> {
    let (ci, bi, ei) = nodes;
    let sign = model.polarity.spec_sign::<S>();
    let t1 = put_pair(t, bi, ei, p.gpi);
    let t2 = put_pair(t1, bi, ci, p.gmu);
    let t3 = put_pair(t2, ci, ei, p.go);
    let t4 = put_transconductance(t3, ci, ei, bi, ei, p.gm);
    let vce = sign.spec_times(at(x, ci).spec_minus(at(x, ei)));
    let ic_eq = sign.spec_times(
        p.ic.spec_minus(
            p.gm.spec_times(p.vbe).spec_plus(p.go.spec_times(vce)).spec_minus(
                p.gmu.spec_times(p.vbc),
            ),
        ),
    );
    let ib_eq = sign.spec_times(
        p.ib.spec_minus(p.gpi.spec_times(p.vbe).spec_plus(p.gmu.spec_times(p.vbc))),
    );
    let ie_eq = sign.spec_times(
        p.ie.spec_plus(p.gm.spec_plus(p.gpi).spec_times(p.vbe)).spec_plus(p.go.spec_times(vce)),
    );
    put_i(
        put_i(put_i(t4, ci, ic_eq.spec_negated()), bi, ib_eq.spec_negated()),
        ei,
        ie_eq.spec_negated(),
    )
}

fn stamp_terminal<S: Scalar>(
    model: &BjtModel<S>,
    p: &BjtPoint<S>,
    x: &[S],
    nodes: (Option<usize>, Option<usize>, Option<usize>),
    out: &mut Vec<Write<S>>,
)
    requires
        nodes.0 is Some ==> nodes.0->0 < x@.len(),
        nodes.2 is Some ==> nodes.2->0 < x@.len(),
    ensures
        final(out)@ == put_terminal(model, p, x@, nodes, old(out)@),
{
    let (ci, bi, ei) = nodes;
    let sign: S = model.polarity.sign();
    add_pair(out, bi, ei, p.gpi);
    add_pair(out, bi, ci, p.gmu);
    add_pair(out, ci, ei, p.go);
    add_transconductance(out, ci, ei, bi, ei, p.gm);
    let vce: S = sign.times(value_at(x, ci).minus(value_at(x, ei)));
    let ic_eq: S = sign.times(
        p.ic.minus(p.gm.times(p.vbe).plus(p.go.times(vce)).minus(p.gmu.times(p.vbc))),
    );
    let ib_eq: S = sign.times(p.ib.minus(p.gpi.times(p.vbe).plus(p.gmu.times(p.vbc))));
    let ie_eq: S = sign.times(p.ie.plus(p.gm.plus(p.gpi).times(p.vbe)).plus(p.go.times(vce)));
    inject(out, ci, ic_eq.negated());
    inject(out, bi, ib_eq.negated());
    inject(out, ei, ie_eq.negated());
}

/// A charge companion from `a` to `b`, its current folded by the polarity.
pub open spec fn put_folded<S: Scalar>(
    a: Option<usize>,
    b: Option<usize>,
    pair: (S, S),
    sign: S,
    t: Seq<Write<S>>,
) -> Seq<Write<S>> {
    put_i(
        put_i(put_pair(t, a, b, pair.0), a, sign.spec_negated().spec_times(pair.1)),
        b,
        sign.spec_times(pair.1),
    )
}

pub fn stamp_folded<S: Scalar>(
    a: Option<usize>,
    b: Option<usize>,
    pair: (S, S),
    sign: S,
    out: &mut Vec<Write<S>>,
)
    ensures
        final(out)@ == put_folded(a, b, pair, sign, old(out)@),
{
    add_pair(out, a, b, pair.0);
    inject(out, a, sign.negated().times(pair.1));
    inject(out, b, sign.times(pair.1));
}

/// Whether the transistor sits behind a series resistance.
pub open spec fn relocated<S: Scalar>(ctx: &StampCtx<S>, id: DeviceId) -> bool {
    let ints = ctx.layout.bjt_internal_of@[id.0 as int]@;
    ctx.opts.effects.series_resistance && (ints[0] is Some || ints[1] is Some || ints[2] is Some)
}

/// A bipolar transistor: its series resistances, the Newton tangent of the
/// transport model, and charge companions where it stores charge.
pub open spec fn put_bjt<S: Scalar>(
    ctx: &StampCtx<S>,
    id: DeviceId,
    c: NodeId,
    b: NodeId,
    e: NodeId,
    model: &BjtModel<S>,
    t: Seq<Write<S>>,
) -> Seq<Write<S>> {
    let d = id.0 as int;
    let sign = model.polarity.spec_sign::<S>();
    let on = ctx.opts.effects.series_resistance;
    let ints = ctx.layout.bjt_internal_of@[d]@;
    let t1 = put_series(ctx.ix(c), ints[0], model.rc, on, t);
    let t2 = put_series(ctx.ix(b), ints[1], model.rb, on, t1);
    let t3 = put_series(ctx.ix(e), ints[2], model.re, on, t2);
    let nodes = effective_nodes(ctx.layout, id, c, b, e, &ctx.opts.effects);
    let (vbe, vbc) = bjt_voltages(ctx, model, nodes);
    let p = bjt_point(model, ctx.opts, vbe, vbc);
    let t4 = if relocated(ctx, id) {
        put_exact(model, ctx.opts.effects.early_effect, &p, nodes, t3)
    } else {
        put_terminal(model, &p, ctx.x@, nodes, t3)
    };
    if ctx.dc || !bjt_charges(model, &ctx.opts.effects) {
        t4
    } else {
        let (q_be, c_be) = charge_be(model, vbe, p.cf, p.gif);
        let (q_bc, c_bc) = charge_bc(model, vbc, p.cr, p.gir);
        let be = companion(
            ctx,
            q_be,
            c_be,
            vbe,
            ctx.state.x1@[d],
            ctx.state.dx1@[d],
            ctx.state.x2@[d],
        );
        let bank = ctx.state.xb@[0];
        let bc = companion(ctx, q_bc, c_bc, vbc, bank.x1@[d], bank.dx1@[d], bank.x2@[d]);
        put_folded(
            nodes.1,
            nodes.0,
            bc,
            sign,
            put_folded(nodes.1, nodes.2, be, sign, t4),
        )
    }
}

pub fn stamp_bjt<S: Scalar>(
    ctx: &StampCtx<S>,
    id: DeviceId,
    c: NodeId,
    b: NodeId,
    e: NodeId,
    model: &BjtModel<S>,
    out: &mut Vec<Write<S>>,
)
    requires
        ctx.wf(),
        id.0 < ctx.circuit.devices@.len(),
    ensures
        final(out)@ == put_bjt(ctx, id, c, b, e, model, old(out)@),
{
    let d: usize = id.0 as usize;
    let sign: S = model.polarity.sign();
    let on: bool = ctx.opts.effects.series_resistance;
    let ints = &ctx.layout.bjt_internal_of[d];
    stamp_series(ctx.node(c), ints[0], model.rc, on, out);
    stamp_series(ctx.node(b), ints[1], model.rb, on, out);
    stamp_series(ctx.node(e), ints[2], model.re, on, out);
    let nodes = bjt_effective_nodes(ctx.circuit, ctx.layout, id, c, b, e, &ctx.opts.effects);
    let (vbe, vbc) = limited_voltages(ctx, model, nodes);
    let p = bjt_eval(model, ctx.opts, vbe, vbc);
    if on && (ints[0].is_some() || ints[1].is_some() || ints[2].is_some()) {
        stamp_exact(model, ctx.opts.effects.early_effect, &p, nodes, out);
    } else {
        stamp_terminal(model, &p, ctx.x, nodes, out);
    }
    if ctx.dc || !bjt_has_charge(model, &ctx.opts.effects) {
        return;
    }
    let (q_be, c_be) = bjt_charge_be(model, vbe, p.cf, p.gif);
    let (q_bc, c_bc) = bjt_charge_bc(model, vbc, p.cr, p.gir);
    let be = charge_companion(
        ctx,
        q_be,
        c_be,
        vbe,
        ctx.state.x1[d],
        ctx.state.dx1[d],
        ctx.state.x2[d],
    );
    stamp_folded(nodes.1, nodes.2, be, sign, out);
    let bank = &ctx.state.xb[0];
    let bc = charge_companion(ctx, q_bc, c_bc, vbc, bank.x1[d], bank.dx1[d], bank.x2[d]);
    stamp_folded(nodes.1, nodes.0, bc, sign, out);
}

/// A transistor sits behind a series resistance exactly where those are modelled and it
/// has an unknown there, and on its terminal otherwise.
pub proof fn law_a_transistor_sits_behind_its_resistances<S: Scalar>(
    layout: &Layout<S>,
    id: DeviceId,
    c: NodeId,
    b: NodeId,
    e: NodeId,
    effects: &DeviceEffects<S>,
)
    ensures
        ({
            let (ci, bi, ei) = effective_nodes(layout, id, c, b, e, effects);
            let ints = layout.bjt_internal_of@[id.0 as int]@;
            let on = effects.series_resistance;
            &&& on && ints[0] is Some ==> ci == ints[0]
            &&& !on || ints[0] is None ==> ci == layout.spec_node(c)
            &&& on && ints[1] is Some ==> bi == ints[1]
            &&& !on || ints[1] is None ==> bi == layout.spec_node(b)
            &&& on && ints[2] is Some ==> ei == ints[2]
            &&& !on || ints[2] is None ==> ei == layout.spec_node(e)
        }),
{
}

} // verus!
