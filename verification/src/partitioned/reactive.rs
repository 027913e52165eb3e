//! The reactive history of an island's devices.
//!
//! A device holds up to four states: bank 0 is the primary one, banks 1 to 3 the
//! secondary ones. A capacitor holds its voltage and an inductor its current; a
//! junction or a gate that stores charge holds that charge.
use vstd::prelude::*;

use crate::circuit::{BjtModel, Circuit, Device, DeviceId, DiodeModel, MosfetModel, NodeId};
use crate::options::{Integration, SolverOptions};
use crate::scalar::Scalar;
use crate::stamp::bjt::{
    bjt_charges, bjt_charges_at, bjt_effective_nodes, bjt_has_charge, bjt_junction_voltages,
    bjt_point, charge_bc, charge_be, charges_at, effective_nodes, junction_voltages,
};
use crate::stamp::context::{at, lemma_branch_range, lemma_node_range, value_at};
use crate::stamp::junction::{
    depletion, diode_charge, diode_charges, diode_eval, diode_has_charge, diode_point, stored,
};
use crate::partitioned::sources::{volt, volt_of};
use crate::stamp::mosfet::{
    gate_drain, gate_source, mos_charges, mos_charges_at, mos_effective_nodes, mos_has_charge, mos_junction_voltages,
    mos_nodes, mos_stored, mos_voltages, transition,
};
use crate::stamp::rules::integrates;
use crate::system::{Layout, ReactiveState};

verus! {

/// The states of a device, by bank; absent where the device holds none.
#[derive(Clone, Copy, Debug)]
pub struct Held<S> {
    pub primary: Option<S>,
    pub first: Option<S>,
    pub second: Option<S>,
    pub third: Option<S>,
}

impl<S: Scalar> Held<S> {
    pub open spec fn bank(&self, k: int) -> Option<S> {
        if k == 0 {
            self.primary
        } else if k == 1 {
            self.first
        } else if k == 2 {
            self.second
        } else {
            self.third
        }
    }
}

/// Nothing held.
pub open spec fn held_none<S>() -> Held<S> {
    Held { primary: None, first: None, second: None, third: None }
}

/// One state held.
pub open spec fn held_one<S>(v: S) -> Held<S> {
    Held { primary: Some(v), first: None, second: None, third: None }
}

/// A node's voltage in a solution, zero where it has no unknown.
pub open spec fn node_volt<S: Scalar>(layout: &Layout<S>, x: Seq<S>, n: NodeId) -> S {
    at(x, layout.spec_node(n))
}

pub fn node_v<S: Scalar>(circuit: &Circuit<S>, layout: &Layout<S>, x: &Vec<S>, n: NodeId) -> (r: S)
    requires
        circuit.wf(),
        layout.lays_out(circuit),
        x@.len() == layout.size,
    ensures
        r == node_volt(layout, x@, n),
{
    proof {
        lemma_node_range(circuit, layout, n);
    }
    value_at(x.as_slice(), layout.node(n))
}

/// A diode's charge at a junction voltage.
pub open spec fn diode_q<S: Scalar>(model: &DiodeModel<S>, vd: S, opts: &SolverOptions<S>) -> S {
    let point = diode_point(model, vd, opts);
    stored(model.cjo, model.vj, model.m, model.tt, vd, point.0, point.1).0
}

fn diode_charge_at<S: Scalar>(model: &DiodeModel<S>, vd: S, opts: &SolverOptions<S>) -> (r: S)
    ensures
        r == diode_q(model, vd, opts),
{
    let (id, gd) = diode_eval(model, vd, opts);
    diode_charge(model, vd, id, gd).0
}

/// What a device holds in a solution.
pub open spec fn held_at<S: Scalar>(
    circuit: &Circuit<S>,
    layout: &Layout<S>,
    x: Seq<S>,
    opts: &SolverOptions<S>,
    d: int,
) -> Held<S> {
    match circuit.devices@[d] {
        Device::Capacitor { a, b, .. } => held_one(
            node_volt(layout, x, a).spec_minus(node_volt(layout, x, b)),
        ),
        Device::Inductor { .. } => held_one(at(x, layout.branch_of@[d])),
        Device::Diode { a, k, model, .. } => if diode_charges(&model, &opts.effects) {
            held_one(
                diode_q(
                    &model,
                    node_volt(layout, x, a).spec_minus(node_volt(layout, x, k)),
                    opts,
                ),
            )
        } else {
            held_none()
        },
        Device::Bjt { c, b, e, model, .. } => if bjt_charges(&model, &opts.effects) {
            let nodes = effective_nodes(layout, DeviceId(d as u32), c, b, e, &opts.effects);
            let (vbe, vbc) = junction_voltages(x, nodes, model.polarity.spec_sign::<S>());
            let (be, bc) = charges_at(&model, vbe, vbc, opts);
            Held { primary: Some(be), first: Some(bc), second: None, third: None }
        } else {
            held_none()
        },
        Device::Mosfet { d: drain, g, s, b, model, .. } => if mos_charges(&model, &opts.effects) {
            let (vgs, vgd, vbd, vbs) = mos_voltages(
                x,
                mos_nodes(layout, DeviceId(d as u32), drain, g, s, b, &opts.effects),
                model.polarity.spec_sign::<S>(),
            );
            let q = mos_stored(&model, vgs, vgd, vbd, vbs, opts);
            Held { primary: Some(q.0), first: Some(q.1), second: Some(q.2), third: Some(q.3) }
        } else {
            held_none()
        },
        _ => held_none(),
    }
}

fn hold_bjt<S: Scalar>(
    circuit: &Circuit<S>,
    layout: &Layout<S>,
    x: &Vec<S>,
    opts: &SolverOptions<S>,
    d: usize,
    c: NodeId,
    b: NodeId,
    e: NodeId,
    model: &BjtModel<S>,
) -> (r: (S, S))
    requires
        circuit.wf(),
        layout.lays_out(circuit),
        x@.len() == layout.size,
        d < circuit.devices@.len(),
    ensures
        ({
            let nodes = effective_nodes(layout, DeviceId(d as u32), c, b, e, &opts.effects);
            let v = junction_voltages(x@, nodes, model.polarity.spec_sign::<S>());
            r == charges_at(model, v.0, v.1, opts)
        }),
{
    let nodes = bjt_effective_nodes(
        circuit,
        layout,
        DeviceId(d as u32),
        c,
        b,
        e,
        &opts.effects,
    );
    let (vbe, vbc) = bjt_junction_voltages(x.as_slice(), nodes, model.polarity.sign());
    bjt_charges_at(model, vbe, vbc, opts)
}

fn hold_mosfet<S: Scalar>(
    circuit: &Circuit<S>,
    layout: &Layout<S>,
    x: &Vec<S>,
    opts: &SolverOptions<S>,
    d: usize,
    drain: NodeId,
    g: NodeId,
    s: NodeId,
    b: Option<NodeId>,
    model: &MosfetModel<S>,
) -> (r: (S, S, S, S))
    requires
        circuit.wf(),
        layout.lays_out(circuit),
        x@.len() == layout.size,
        d < circuit.devices@.len(),
    ensures
        ({
            let v = mos_voltages(
                x@,
                mos_nodes(layout, DeviceId(d as u32), drain, g, s, b, &opts.effects),
                model.polarity.spec_sign::<S>(),
            );
            r == mos_stored(model, v.0, v.1, v.2, v.3, opts)
        }),
{
    let nodes = mos_effective_nodes(
        circuit,
        layout,
        DeviceId(d as u32),
        drain,
        g,
        s,
        b,
        &opts.effects,
    );
    let (vgs, vgd, vbd, vbs) = mos_junction_voltages(x.as_slice(), nodes, model.polarity.sign());
    mos_charges_at(model, vgs, vgd, vbd, vbs, opts)
}

/// What a device holds in a solution.
fn hold<S: Scalar>(
    circuit: &Circuit<S>,
    layout: &Layout<S>,
    x: &Vec<S>,
    opts: &SolverOptions<S>,
    d: usize,
) -> (r: Held<S>)
    requires
        circuit.wf(),
        layout.lays_out(circuit),
        x@.len() == layout.size,
        d < circuit.devices@.len(),
    ensures
        r == held_at(circuit, layout, x@, opts, d as int),
{
    match &circuit.devices[d] {
        Device::Capacitor { a, b, .. } => {
            let v = node_v(circuit, layout, x, *a).minus(node_v(circuit, layout, x, *b));
            Held { primary: Some(v), first: None, second: None, third: None }
        },
        Device::Inductor { .. } => {
            proof {
                lemma_branch_range(circuit, layout, d as int);
            }
            let i = value_at(x.as_slice(), layout.branch(DeviceId(d as u32)));
            Held { primary: Some(i), first: None, second: None, third: None }
        },
        Device::Diode { a, k, model, .. } => {
            if !diode_has_charge(model, &opts.effects) {
                return Held { primary: None, first: None, second: None, third: None };
            }
            let vd = node_v(circuit, layout, x, *a).minus(node_v(circuit, layout, x, *k));
            let q = diode_charge_at(model, vd, opts);
            Held { primary: Some(q), first: None, second: None, third: None }
        },
        Device::Bjt { c, b, e, model, .. } => {
            if !bjt_has_charge(model, &opts.effects) {
                return Held { primary: None, first: None, second: None, third: None };
            }
            let (be, bc) = hold_bjt(circuit, layout, x, opts, d, *c, *b, *e, model);
            Held { primary: Some(be), first: Some(bc), second: None, third: None }
        },
        Device::Mosfet { d: drain, g, s, b, model, .. } => {
            if !mos_has_charge(model, &opts.effects) {
                return Held { primary: None, first: None, second: None, third: None };
            }
            let (gs, gd, bd, bs) = hold_mosfet(
                circuit,
                layout,
                x,
                opts,
                d,
                *drain,
                *g,
                *s,
                *b,
                model,
            );
            Held { primary: Some(gs), first: Some(gd), second: Some(bd), third: Some(bs) }
        },
        _ => Held { primary: None, first: None, second: None, third: None },
    }
}

/// What a device holds at the start: its initial condition where it has one, else
/// what it holds in the solution.
pub open spec fn held_first<S: Scalar>(
    circuit: &Circuit<S>,
    layout: &Layout<S>,
    x: Seq<S>,
    opts: &SolverOptions<S>,
    d: int,
) -> Held<S> {
    match circuit.devices@[d] {
        Device::Capacitor { ic: Some(v), .. } => held_one(v),
        Device::Inductor { ic: Some(i), .. } => held_one(i),
        _ => held_at(circuit, layout, x, opts, d),
    }
}

fn hold_first<S: Scalar>(
    circuit: &Circuit<S>,
    layout: &Layout<S>,
    x: &Vec<S>,
    opts: &SolverOptions<S>,
    d: usize,
) -> (r: Held<S>)
    requires
        circuit.wf(),
        layout.lays_out(circuit),
        x@.len() == layout.size,
        d < circuit.devices@.len(),
    ensures
        r == held_first(circuit, layout, x@, opts, d as int),
{
    match &circuit.devices[d] {
        Device::Capacitor { ic: Some(v), .. } => {
            Held { primary: Some(*v), first: None, second: None, third: None }
        },
        Device::Inductor { ic: Some(i), .. } => {
            Held { primary: Some(*i), first: None, second: None, third: None }
        },
        _ => hold(circuit, layout, x, opts, d),
    }
}

/// A state, its derivative and the state one step further back.
pub struct Track<S> {
    pub x1: S,
    pub dx1: S,
    pub x2: S,
}

/// The history of a device in a bank.
pub open spec fn track<S: Scalar>(state: &ReactiveState<S>, bank: int, d: int) -> Track<S> {
    if bank == 0 {
        Track { x1: state.x1@[d], dx1: state.dx1@[d], x2: state.x2@[d] }
    } else {
        let xb = state.xb@[bank - 1];
        Track { x1: xb.x1@[d], dx1: xb.dx1@[d], x2: xb.x2@[d] }
    }
}

/// A history that starts at rest in a state.
pub open spec fn begun<S: Scalar>(was: Track<S>, v: Option<S>) -> Track<S> {
    match v {
        Some(v) => Track { x1: v, dx1: S::spec_zero(), x2: v },
        None => was,
    }
}

/// The derivative over a step: the trapezoidal one continues the last derivative,
/// the other is the difference quotient.
pub open spec fn slope<S: Scalar>(was: S, now: S, dx: S, h: S, trapz: bool) -> S {
    if trapz {
        S::spec_int(2).spec_times(now.spec_minus(was)).spec_over(h).spec_minus(dx)
    } else {
        now.spec_minus(was).spec_over(h)
    }
}

fn slope_of<S: Scalar>(was: S, now: S, dx: S, h: S, trapz: bool) -> (r: S)
    ensures
        r == slope(was, now, dx, h, trapz),
{
    if trapz {
        S::from_int(2).times(now.minus(was)).over(h).minus(dx)
    } else {
        now.minus(was).over(h)
    }
}

/// A history one accepted step on.
pub open spec fn rolled<S: Scalar>(was: Track<S>, v: Option<S>, h: S, trapz: bool) -> Track<S> {
    match v {
        Some(v) => Track { x1: v, dx1: slope(was.x1, v, was.dx1, h, trapz), x2: was.x1 },
        None => was,
    }
}

/// How a history changes.
#[derive(Clone, Copy, Debug)]
enum Change<S> {
    Begin,
    Roll { h: S, trapz: bool },
}

spec fn changed<S: Scalar>(was: Track<S>, v: Option<S>, change: Change<S>) -> Track<S> {
    match change {
        Change::Begin => begun(was, v),
        Change::Roll { h, trapz } => rolled(was, v, h, trapz),
    }
}

fn change_one<S: Scalar>(
    x1: &mut Vec<S>,
    dx1: &mut Vec<S>,
    x2: &mut Vec<S>,
    d: usize,
    v: Option<S>,
    change: Change<S>,
)
    requires
        d < old(x1)@.len(),
        d < old(dx1)@.len(),
        d < old(x2)@.len(),
    ensures
        ({
            let was = Track {
                x1: old(x1)@[d as int],
                dx1: old(dx1)@[d as int],
                x2: old(x2)@[d as int],
            };
            let now = changed(was, v, change);
            &&& final(x1)@ == old(x1)@.update(d as int, now.x1)
            &&& final(dx1)@ == old(dx1)@.update(d as int, now.dx1)
            &&& final(x2)@ == old(x2)@.update(d as int, now.x2)
        }),
{
    match v {
        Some(v) => {
            let was = x1[d];
            match change {
                Change::Begin => {
                    x2[d] = v;
                    dx1[d] = S::zero();
                },
                Change::Roll { h, trapz } => {
                    let dx = slope_of(was, v, dx1[d], h, trapz);
                    x2[d] = was;
                    dx1[d] = dx;
                },
            }
            x1[d] = v;
        },
        None => {
            assert(x1@.update(d as int, x1@[d as int]) =~= x1@);
            assert(dx1@.update(d as int, dx1@[d as int]) =~= dx1@);
            assert(x2@.update(d as int, x2@[d as int]) =~= x2@);
        },
    }
}

fn change_all<S: Scalar>(state: &mut ReactiveState<S>, d: usize, held: Held<S>, change: Change<S>)
    requires
        old(state).sized(old(state).x1@.len()),
        d < old(state).x1@.len(),
    ensures
        final(state).sized(old(state).x1@.len()),
        forall|k: int, j: int|
            0 <= k < 4 && 0 <= j < old(state).x1@.len() ==> #[trigger] track(final(state), k, j)
                == (if j == d {
                changed(track(old(state), k, j), held.bank(k), change)
            } else {
                track(old(state), k, j)
            }),
{
    change_one(&mut state.x1, &mut state.dx1, &mut state.x2, d, held.primary, change);
    change_one(
        &mut state.xb[0].x1,
        &mut state.xb[0].dx1,
        &mut state.xb[0].x2,
        d,
        held.first,
        change,
    );
    change_one(
        &mut state.xb[1].x1,
        &mut state.xb[1].dx1,
        &mut state.xb[1].x2,
        d,
        held.second,
        change,
    );
    change_one(
        &mut state.xb[2].x1,
        &mut state.xb[2].dx1,
        &mut state.xb[2].x2,
        d,
        held.third,
        change,
    );
    assert forall|k: int, j: int|
        0 <= k < 4 && 0 <= j < old(state).x1@.len() implies #[trigger] track(state, k, j) == (if j
        == d {
        changed(track(old(state), k, j), held.bank(k), change)
    } else {
        track(old(state), k, j)
    }) by {
        assert(k == 0 || k == 1 || k == 2 || k == 3);
    }
}

/// Start every device's history at rest.
pub fn seed_sub_reactive<S: Scalar>(
    state: &mut ReactiveState<S>,
    circuit: &Circuit<S>,
    layout: &Layout<S>,
    x: &Vec<S>,
    opts: &SolverOptions<S>,
)
    requires
        circuit.wf(),
        layout.lays_out(circuit),
        x@.len() == layout.size,
        old(state).sized(circuit.devices@.len()),
    ensures
        final(state).sized(circuit.devices@.len()),
        forall|k: int, d: int|
            0 <= k < 4 && 0 <= d < circuit.devices@.len() ==> #[trigger] track(final(state), k, d)
                == begun(
                track(old(state), k, d),
                held_first(circuit, layout, x@, opts, d).bank(k),
            ),
{
    let mut d: usize = 0;
    while d < circuit.devices.len()
        invariant
            d <= circuit.devices@.len(),
            circuit.wf(),
            layout.lays_out(circuit),
            x@.len() == layout.size,
            state.sized(circuit.devices@.len()),
            forall|k: int, j: int|
                0 <= k < 4 && 0 <= j < circuit.devices@.len() ==> #[trigger] track(state, k, j)
                    == (if j < d {
                    begun(
                        track(old(state), k, j),
                        held_first(circuit, layout, x@, opts, j).bank(k),
                    )
                } else {
                    track(old(state), k, j)
                }),
        decreases circuit.devices@.len() - d,
    {
        let held = hold_first(circuit, layout, x, opts, d);
        change_all(state, d, held, Change::Begin);
        d = d + 1;
    }
}

/// Whether a step continues by the trapezoidal rule; the first never does.
pub open spec fn continues_trapezoidal(method: Integration, first: bool) -> bool {
    method == Integration::Trapezoidal && !first
}

/// Carry every device's history over an accepted step.
pub fn advance_sub_reactive<S: Scalar>(
    state: &mut ReactiveState<S>,
    circuit: &Circuit<S>,
    layout: &Layout<S>,
    x: &Vec<S>,
    h: S,
    opts: &SolverOptions<S>,
    first: bool,
)
    requires
        circuit.wf(),
        layout.lays_out(circuit),
        x@.len() == layout.size,
        old(state).sized(circuit.devices@.len()),
    ensures
        final(state).sized(circuit.devices@.len()),
        forall|k: int, d: int|
            0 <= k < 4 && 0 <= d < circuit.devices@.len() ==> #[trigger] track(final(state), k, d)
                == rolled(
                track(old(state), k, d),
                held_at(circuit, layout, x@, opts, d).bank(k),
                h,
                continues_trapezoidal(opts.integration, first),
            ),
{
    let trapz: bool = opts.integration == Integration::Trapezoidal && !first;
    let mut d: usize = 0;
    while d < circuit.devices.len()
        invariant
            d <= circuit.devices@.len(),
            circuit.wf(),
            layout.lays_out(circuit),
            x@.len() == layout.size,
            state.sized(circuit.devices@.len()),
            forall|k: int, j: int|
                0 <= k < 4 && 0 <= j < circuit.devices@.len() ==> #[trigger] track(state, k, j)
                    == (if j < d {
                    rolled(
                        track(old(state), k, j),
                        held_at(circuit, layout, x@, opts, j).bank(k),
                        h,
                        trapz,
                    )
                } else {
                    track(old(state), k, j)
                }),
        decreases circuit.devices@.len() - d,
    {
        let held = hold(circuit, layout, x, opts, d);
        change_all(state, d, held, Change::Roll { h, trapz });
        d = d + 1;
    }
}

/// A history at rest stays at rest while its device holds the same state, where the
/// arithmetic is exact.
pub proof fn law_rest_is_kept<S: Scalar>(v: S, h: S, trapz: bool)
    requires
        S::exact(),
        h != S::spec_zero(),
    ensures
        rolled(Track { x1: v, dx1: S::spec_zero(), x2: v }, Some(v), h, trapz) == (Track {
            x1: v,
            dx1: S::spec_zero(),
            x2: v,
        }),
{
    let zero = S::spec_zero();
    S::laws(zero, v, zero);
    S::laws(v, zero, zero);
    assert(v.spec_minus(v) == zero);
    S::laws(S::spec_int(2), zero, zero);
    S::laws(zero, h, zero);
    S::laws(zero.spec_over(h), h, zero);
    lemma_zero_over(h);
    S::laws(zero, zero, zero);
}

/// Zero divided is zero.
proof fn lemma_zero_over<S: Scalar>(h: S)
    requires
        S::exact(),
        h != S::spec_zero(),
    ensures
        S::spec_zero().spec_over(h) == S::spec_zero(),
{
    let zero = S::spec_zero();
    let one = S::spec_int(1);
    let q = zero.spec_over(h);
    S::laws(zero, h, zero);
    let i = one.spec_over(h);
    S::laws(one, h, zero);
    S::laws(q, h, i);
    S::laws(i, h, zero);
    S::laws(h, i, zero);
    S::laws(q, one, zero);
    S::laws(i, zero, zero);
    assert(q.spec_times(h.spec_times(i)) == q);
    assert(q.spec_times(h).spec_times(i) == zero.spec_times(i));
    S::laws(zero, i, zero);
}

/// The starting state of a linear island's capacitor or inductor, from estimated
/// node voltages: its initial condition, else the voltage across the capacitor and
/// no current in the inductor.
pub open spec fn first_state<S: Scalar>(dev: Device<S>, va: S, vb: S) -> S {
    match dev {
        Device::Capacitor { ic, .. } => match ic {
            Some(v) => v,
            None => va.spec_minus(vb),
        },
        Device::Inductor { ic, .. } => match ic {
            Some(i) => i,
            None => S::spec_zero(),
        },
        _ => S::spec_zero(),
    }
}

/// The starting state of a reactive device, given the estimated voltages of its
/// two nodes.
pub fn estimate_state<S: Scalar>(dev: &Device<S>, va: S, vb: S) -> (r: S)
    ensures
        r == first_state(*dev, va, vb),
{
    match dev {
        Device::Capacitor { ic, .. } => match ic {
            Some(v) => *v,
            None => va.minus(vb),
        },
        Device::Inductor { ic, .. } => match ic {
            Some(i) => *i,
            None => S::zero(),
        },
        _ => S::zero(),
    }
}

/// The state a reduced island starts a reactive device in: its initial condition
/// where it has one; else what it holds at the operating point; else, where there is
/// no operating point, what the estimated node voltages leave across a capacitor,
/// and no current in an inductor.
pub open spec fn linear_first<S: Scalar>(
    circuit: &Circuit<S>,
    layout: &Layout<S>,
    point: Option<Seq<S>>,
    buf: Seq<S>,
    d: int,
) -> S {
    let zero = S::spec_zero();
    match (circuit.devices@[d], point) {
        (Device::Capacitor { a, b, .. }, Some(x)) => first_state(
            circuit.devices@[d],
            node_volt(layout, x, a),
            node_volt(layout, x, b),
        ),
        (Device::Capacitor { a, b, .. }, None) => first_state(
            circuit.devices@[d],
            volt(buf, a),
            volt(buf, b),
        ),
        (Device::Inductor { ic: None, .. }, Some(x)) => at(x, layout.branch_of@[d]),
        _ => first_state(circuit.devices@[d], zero, zero),
    }
}

/// The state a reduced island starts a reactive device in, given the operating
/// point, if there is one, and the estimated voltage of every node.
pub fn linear_start<S: Scalar>(
    circuit: &Circuit<S>,
    layout: &Layout<S>,
    point: Option<&Vec<S>>,
    buf: &Vec<S>,
    id: DeviceId,
) -> (r: S)
    requires
        circuit.wf(),
        layout.lays_out(circuit),
        id.0 < circuit.devices@.len(),
        point matches Some(x) ==> x@.len() == layout.size,
        forall|k: int|
            0 <= k < circuit.devices@[id.0 as int].spec_nodes().len() ==> (
            #[trigger] circuit.devices@[id.0 as int].spec_nodes()[k]).0 < buf@.len(),
    ensures
        r == linear_first(
            circuit,
            layout,
            match point {
                Some(x) => Some(x@),
                None => None,
            },
            buf@,
            id.0 as int,
        ),
{
    let dev = &circuit.devices[id.0 as usize];
    proof {
        lemma_branch_range(circuit, layout, id.0 as int);
    }
    match (dev, point) {
        (Device::Capacitor { a, b, .. }, Some(x)) => {
            estimate_state(
                dev,
                node_v(circuit, layout, x, *a),
                node_v(circuit, layout, x, *b),
            )
        },
        (Device::Capacitor { a, b, .. }, None) => {
            assert(dev.spec_nodes()[0].0 < buf@.len() && dev.spec_nodes()[1].0 < buf@.len());
            estimate_state(dev, volt_of(buf, *a), volt_of(buf, *b))
        },
        (Device::Inductor { ic: None, .. }, Some(x)) => {
            value_at(x.as_slice(), layout.branch(id))
        },
        _ => estimate_state(dev, S::zero(), S::zero()),
    }
}

/// A history carried over a step holds the new value, the old one before it, and the
/// rate that the rule finds over the step: continued trapezoidally it is the average
/// with the last rate that spans the change, otherwise the rate itself spans it.
pub proof fn law_a_history_follows_its_rule<S: Scalar>(was: Track<S>, v: S, h: S, trapz: bool)
    requires
        S::exact(),
        h != S::spec_zero(),
    ensures
        ({
            let now = rolled(was, Some(v), h, trapz);
            &&& now.x1 == v
            &&& now.x2 == was.x1
            &&& integrates(
                if trapz {
                    Integration::Trapezoidal
                } else {
                    Integration::BackwardEuler
                },
                h,
                now.dx1,
                v,
                was.x1,
                was.dx1,
                was.x2,
            )
        }),
{
    let d = v.spec_minus(was.x1);
    let two_d = S::spec_int(2).spec_times(d);
    S::laws(d, h, h);
    S::laws(two_d, h, h);
    S::laws(two_d.spec_over(h), was.dx1, h);
}

/// A history begun in a state is at rest there: its rate is zero and its past is the
/// state itself.
pub proof fn law_a_history_begins_at_rest<S: Scalar>(was: Track<S>, v: S)
    ensures
        begun(was, Some(v)).x1 == v,
        begun(was, Some(v)).x2 == v,
        begun(was, Some(v)).dx1 == S::spec_zero(),
        begun(was, None::<S>) == was,
{
}

/// What a device holds in a solution is what its stamp integrates: the voltage across a
/// capacitor, the branch current of an inductor, and of a transistor the charge of each
/// of its junctions at the voltage between the unknowns it sits on, in its polarity.
pub proof fn law_a_device_holds_what_it_integrates<S: Scalar>(
    circuit: &Circuit<S>,
    layout: &Layout<S>,
    x: Seq<S>,
    opts: &SolverOptions<S>,
    d: int,
)
    ensures
        match circuit.devices@[d] {
            Device::Capacitor { a, b, .. } => held_at(circuit, layout, x, opts, d).bank(0)
                == Some(at(x, layout.spec_node(a)).spec_minus(at(x, layout.spec_node(b)))),
            Device::Inductor { .. } => held_at(circuit, layout, x, opts, d).bank(0) == Some(
                at(x, layout.branch_of@[d]),
            ),
            Device::Mosfet { d: drain, g, s, b, model, .. } => {
                let nodes = mos_nodes(
                    layout,
                    DeviceId(d as u32),
                    drain,
                    g,
                    s,
                    b,
                    &opts.effects,
                );
                let sign = model.polarity.spec_sign::<S>();
                let (vd, vg, vs, vb) = (
                    at(x, nodes.0),
                    at(x, nodes.1),
                    at(x, nodes.2),
                    at(x, nodes.3),
                );
                let delta = transition(&model, opts);
                let held = held_at(circuit, layout, x, opts, d);
                mos_charges(&model, &opts.effects) ==> {
                    &&& held.bank(0) == Some(
                        gate_source(
                            model.cgs_ov,
                            model.c_ox,
                            model.vto,
                            delta,
                            sign.spec_times(vg.spec_minus(vs)),
                        ).0,
                    )
                    &&& held.bank(1) == Some(
                        gate_drain(
                            model.cgd_ov,
                            model.c_ox,
                            model.vto,
                            delta,
                            sign.spec_times(vg.spec_minus(vd)),
                        ).0,
                    )
                    &&& S::spec_zero().spec_less(model.cbd) ==> held.bank(2) == Some(
                        depletion(
                            model.cbd,
                            model.pb,
                            model.mj,
                            sign.spec_times(vb.spec_minus(vd)),
                        ).0,
                    )
                    &&& S::spec_zero().spec_less(model.cbs) ==> held.bank(3) == Some(
                        depletion(
                            model.cbs,
                            model.pb,
                            model.mj,
                            sign.spec_times(vb.spec_minus(vs)),
                        ).0,
                    )
                }
            },
            Device::Bjt { c, b, e, model, .. } => {
                let nodes = effective_nodes(layout, DeviceId(d as u32), c, b, e, &opts.effects);
                let sign = model.polarity.spec_sign::<S>();
                let vbe = sign.spec_times(at(x, nodes.1).spec_minus(at(x, nodes.2)));
                let vbc = sign.spec_times(at(x, nodes.1).spec_minus(at(x, nodes.0)));
                let p = bjt_point(&model, opts, vbe, vbc);
                let held = held_at(circuit, layout, x, opts, d);
                bjt_charges(&model, &opts.effects) ==> {
                    &&& held.bank(0) == Some(charge_be(&model, vbe, p.cf, p.gif).0)
                    &&& held.bank(1) == Some(charge_bc(&model, vbc, p.cr, p.gir).0)
                }
            },
            _ => true,
        },
{
}

} // verus!
