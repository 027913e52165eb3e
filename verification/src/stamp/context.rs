//! What a stamp depends on besides the device itself.
use vstd::prelude::*;

use crate::circuit::{Circuit, Device, DeviceId, NodeId};
use crate::options::{Integration, SolverOptions};
use crate::scalar::Scalar;
use crate::system::{branch_unknown, couplings_resolve, lemma_taken, Pool};
use crate::system::{Layout, ReactiveState};

verus! {

/// Coefficients of an integration rule for one step: a capacitor's companion is
/// `i = g * C * v` plus a history term weighted by `a1` and `a2`.
#[derive(Clone, Copy, Debug)]
pub struct IntegCoeffs<S> {
    pub g: S,
    pub a1: S,
    pub a2: S,
}

/// `n / (d * dt)`.
pub open spec fn per_step<S: Scalar>(n: i64, d: i64, dt: S) -> S {
    S::spec_int(n).spec_over(S::spec_int(d)).spec_over(dt)
}

/// The coefficients of a rule; the first step of a multi-step rule is a backward
/// Euler step.
pub open spec fn step_coeffs<S: Scalar>(
    method: Integration,
    dt: S,
    first_step: bool,
) -> IntegCoeffs<S> {
    let one = S::spec_int(1).spec_over(dt);
    let two = S::spec_int(2).spec_over(dt);
    let zero = S::spec_zero();
    if first_step || method == Integration::BackwardEuler {
        IntegCoeffs { g: one, a1: one, a2: zero }
    } else if method == Integration::Trapezoidal {
        IntegCoeffs { g: two, a1: two, a2: zero }
    } else {
        IntegCoeffs { g: per_step(3, 2, dt), a1: two, a2: per_step(1, 2, dt) }
    }
}

impl<S: Scalar> IntegCoeffs<S> {
    /// Coefficients of a rule at step size `dt`.
    pub fn for_step(method: Integration, dt: S, first_step: bool) -> (r: IntegCoeffs<S>)
        ensures
            r == step_coeffs(method, dt, first_step),
    {
        let one: S = S::from_int(1).over(dt);
        let two: S = S::from_int(2).over(dt);
        let euler = IntegCoeffs { g: one, a1: one, a2: S::zero() };
        if first_step {
            return euler;
        }
        match method {
            Integration::BackwardEuler => euler,
            Integration::Trapezoidal => IntegCoeffs { g: two, a1: two, a2: S::zero() },
            Integration::Gear2 => IntegCoeffs {
                g: S::from_int(3).over(S::from_int(2)).over(dt),
                a1: two,
                a2: S::from_int(1).over(S::from_int(2)).over(dt),
            },
        }
    }
}

/// The value and partial derivatives of a behavioral expression at the iterate.
#[derive(Debug)]
pub struct Linearized<S> {
    pub value: S,
    /// One per dependency.
    pub partials: Vec<S>,
}

/// Everything a stamp needs that changes from step to step or from one Newton
/// iterate to the next.
pub struct StampCtx<'a, S> {
    pub circuit: &'a Circuit<S>,
    pub layout: &'a Layout<S>,
    pub opts: &'a SolverOptions<S>,
    /// The current iterate of all unknowns.
    pub x: &'a [S],
    /// The previous iterate, on which junction limiting is anchored.
    pub x_prev: &'a [S],
    pub coeffs: IntegCoeffs<S>,
    pub state: &'a ReactiveState<S>,
    /// An operating point: reactive devices are open or short, sources at their
    /// DC value.
    pub dc: bool,
    /// In an operating point, hold reactive devices at their initial condition.
    pub use_ic: bool,
    /// Conductance from every node to ground.
    pub gmin: S,
    /// Scale of the independent sources.
    pub src_scale: S,
    /// Resistance in series with every branch; zero on the normal path.
    pub branch_reg: S,
    /// Comparator outputs held for this solve, by device number.
    pub comparator_freeze: Option<&'a Vec<Option<bool>>>,
    /// Switch positions held for this solve, by device number.
    pub switch_freeze: Option<&'a Vec<Option<bool>>>,
    /// The other throw of a double-throw switch, by device number.
    pub spdt_sibling: &'a Vec<Option<DeviceId>>,
    /// DC value of every source, by device number.
    pub source_dc: &'a [S],
    /// Value of every source at the time of the step, by device number.
    pub source_now: &'a [S],
    /// Linearized expression of every behavioral source, by device number; absent
    /// where the expression has no value at the iterate.
    pub behavior: &'a Vec<Option<Linearized<S>>>,
}

/// The value of an unknown, zero for ground.
pub open spec fn at<S: Scalar>(x: Seq<S>, i: Option<usize>) -> S {
    match i {
        Some(i) => x[i as int],
        None => S::spec_zero(),
    }
}

pub fn value_at<S: Scalar>(x: &[S], i: Option<usize>) -> (r: S)
    requires
        i is Some ==> i->0 < x@.len(),
    ensures
        r == at(x@, i),
{
    match i {
        Some(i) => x[i],
        None => S::zero(),
    }
}

/// Whether every device that reads a branch current reads one that exists.
pub open spec fn controls_resolve<S>(devices: Seq<Device<S>>) -> bool {
    forall|d: int, k: int|
        #![trigger devices[d].spec_controls()[k]]
        0 <= d < devices.len() && 0 <= k < devices[d].spec_controls().len() ==> {
            let ctrl = devices[d].spec_controls()[k];
            ctrl.0 < devices.len() && devices[ctrl.0 as int].spec_owns_branch()
        }
}

impl<'a, S: Scalar> StampCtx<'a, S> {
    /// Whether the parts of the context belong together.
    pub open spec fn wf(&self) -> bool {
        let n = self.circuit.devices@.len();
        &&& self.circuit.wf()
        &&& self.layout.lays_out(self.circuit)
        &&& couplings_resolve(self.circuit.devices@)
        &&& controls_resolve(self.circuit.devices@)
        &&& self.x@.len() == self.layout.size
        &&& self.x_prev@.len() == self.layout.size
        &&& self.state.sized(n)
        &&& self.spdt_sibling@.len() == n
        &&& self.source_dc@.len() == n
        &&& self.source_now@.len() == n
        &&& self.behavior@.len() == n
        &&& match self.comparator_freeze {
            Some(held) => held@.len() == n,
            None => true,
        }
        &&& match self.switch_freeze {
            Some(held) => held@.len() == n,
            None => true,
        }
        &&& forall|d: int|
            #![trigger self.behavior@[d]]
            0 <= d < n && self.behavior@[d] is Some ==> match self.circuit.devices@[d] {
                Device::Behavioral { deps, .. } => self.behavior@[d]->0.partials@.len()
                    == deps@.len(),
                _ => true,
            }
    }

    /// The unknown of a node.
    pub open spec fn ix(&self, n: NodeId) -> Option<usize> {
        self.layout.spec_node(n)
    }

    /// The branch unknown of a device.
    pub open spec fn br(&self, d: DeviceId) -> Option<usize> {
        self.layout.branch_of@[d.0 as int]
    }

    /// Voltage of a node at the iterate.
    pub open spec fn spec_v(&self, n: NodeId) -> S {
        at(self.x@, self.ix(n))
    }

    /// Voltage of a node at the previous iterate.
    pub open spec fn spec_v_prev(&self, n: NodeId) -> S {
        at(self.x_prev@, self.ix(n))
    }

    /// The value of a source: its DC value in an operating point.
    pub open spec fn spec_source(&self, d: DeviceId) -> S {
        if self.dc {
            self.source_dc@[d.0 as int]
        } else {
            self.source_now@[d.0 as int]
        }
    }

    pub fn node(&self, n: NodeId) -> (r: Option<usize>)
        requires
            self.wf(),
        ensures
            r == self.ix(n),
            r is Some ==> r->0 < self.layout.n_nodes <= self.layout.size,
    {
        proof {
            lemma_node_range(self.circuit, self.layout, n);
        }
        self.layout.node(n)
    }

    pub fn v(&self, n: NodeId) -> (r: S)
        requires
            self.wf(),
        ensures
            r == self.spec_v(n),
    {
        value_at(self.x, self.node(n))
    }

    /// Voltage of a node at the previous iterate.
    pub fn v_prev(&self, n: NodeId) -> (r: S)
        requires
            self.wf(),
        ensures
            r == self.spec_v_prev(n),
    {
        value_at(self.x_prev, self.node(n))
    }

    /// Voltage across a junction at the previous iterate.
    pub fn last_vd(&self, a: NodeId, k: NodeId) -> (r: S)
        requires
            self.wf(),
        ensures
            r == self.spec_v_prev(a).spec_minus(self.spec_v_prev(k)),
    {
        self.v_prev(a).minus(self.v_prev(k))
    }

    pub fn source_value(&self, d: DeviceId) -> (r: S)
        requires
            self.wf(),
            d.0 < self.circuit.devices@.len(),
        ensures
            r == self.spec_source(d),
    {
        if self.dc {
            self.source_dc[d.0 as usize]
        } else {
            self.source_now[d.0 as usize]
        }
    }

    /// Branch unknown of a device that owns one.
    pub fn branch(&self, d: DeviceId) -> (r: Option<usize>)
        requires
            self.wf(),
            d.0 < self.circuit.devices@.len(),
        ensures
            r == self.br(d),
            r is Some <==> self.circuit.devices@[d.0 as int].spec_owns_branch(),
            r is Some ==> self.layout.n_nodes <= r->0 < self.layout.size,
    {
        proof {
            lemma_branch_range(self.circuit, self.layout, d.0 as int);
        }
        self.layout.branch(d)
    }
}

/// A node's unknown is among the node unknowns.
pub proof fn lemma_node_range<S: Scalar>(circuit: &Circuit<S>, layout: &Layout<S>, n: NodeId)
    requires
        circuit.wf(),
        layout.lays_out(circuit),
    ensures
        layout.spec_node(n) is Some ==> layout.spec_node(n)->0 < layout.n_nodes <= layout.size,
        layout.external() <= layout.n_nodes <= layout.size,
        layout.spec_node(n) is Some ==> layout.spec_node(n)->0 < layout.external(),
{
    let extra = layout.extra@;
    if n.0 != 0 && n.0 > layout.named && extra.contains(n) {
        let k = extra.index_of(n);
        assert(0 <= k < extra.len() && extra[k] == n);
    }
}

/// A branch unknown comes after the node unknowns, and exactly the devices that
/// own a branch have one.
pub proof fn lemma_branch_range<S: Scalar>(circuit: &Circuit<S>, layout: &Layout<S>, d: int)
    requires
        layout.lays_out(circuit),
        0 <= d < circuit.devices@.len(),
    ensures
        layout.branch_of@[d] is Some <==> circuit.devices@[d].spec_owns_branch(),
        layout.branch_of@[d] is Some ==> layout.n_nodes <= layout.branch_of@[d]->0 < layout.size,
{
    lemma_taken(circuit.devices@, Pool::Branch, d as nat, circuit.devices@.len());
    assert(layout.branch_of@[d] == branch_unknown(circuit.devices@, layout.external(), d));
}

/// The history term of the integration rule for a charge.
pub open spec fn charge_history<S: Scalar>(
    method: Integration,
    k: IntegCoeffs<S>,
    x1: S,
    dx1: S,
    x2: S,
) -> S {
    match method {
        Integration::Trapezoidal => k.g.spec_times(x1).spec_plus(dx1),
        Integration::Gear2 => k.a1.spec_times(x1).spec_minus(k.a2.spec_times(x2)),
        Integration::BackwardEuler => k.a1.spec_times(x1),
    }
}

pub fn history<S: Scalar>(method: Integration, k: IntegCoeffs<S>, x1: S, dx1: S, x2: S) -> (r: S)
    ensures
        r == charge_history(method, k, x1, dx1, x2),
{
    match method {
        Integration::Trapezoidal => k.g.times(x1).plus(dx1),
        Integration::Gear2 => k.a1.times(x1).minus(k.a2.times(x2)),
        Integration::BackwardEuler => k.a1.times(x1),
    }
}

/// The larger of the two; `floor` when they do not compare.
pub open spec fn at_least<S: Scalar>(v: S, floor: S) -> S {
    if floor.spec_less(v) {
        v
    } else {
        floor
    }
}

pub fn raise<S: Scalar>(v: S, floor: S) -> (r: S)
    ensures
        r == at_least(v, floor),
{
    if floor.less(v) {
        v
    } else {
        floor
    }
}

/// The smaller of the two; `ceiling` when they do not compare.
pub open spec fn no_more<S: Scalar>(v: S, ceiling: S) -> S {
    if v.spec_less(ceiling) {
        v
    } else {
        ceiling
    }
}

pub fn lower_to<S: Scalar>(v: S, ceiling: S) -> (r: S)
    ensures
        r == no_more(v, ceiling),
{
    if v.less(ceiling) {
        v
    } else {
        ceiling
    }
}

/// `v` held between two bounds.
pub open spec fn clamped<S: Scalar>(v: S, lo: S, hi: S) -> S {
    if v.spec_less(lo) {
        lo
    } else if hi.spec_less(v) {
        hi
    } else {
        v
    }
}

pub fn clamp<S: Scalar>(v: S, lo: S, hi: S) -> (r: S)
    ensures
        r == clamped(v, lo, hi),
{
    if v.less(lo) {
        lo
    } else if hi.less(v) {
        hi
    } else {
        v
    }
}

/// The fraction `n / d`.
pub open spec fn frac<S: Scalar>(n: i64, d: i64) -> S {
    S::spec_int(n).spec_over(S::spec_int(d))
}

pub fn ratio<S: Scalar>(n: i64, d: i64) -> (r: S)
    ensures
        r == frac::<S>(n, d),
{
    S::from_int(n).over(S::from_int(d))
}

} // verus!
