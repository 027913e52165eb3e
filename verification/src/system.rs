//! The unknowns of the nodal system, and the history reactive devices keep.
//!
//! The unknowns are the voltages of the non-ground nodes, the voltages of nodes
//! private to a device (behind a series resistance), and the currents of the
//! branches that fix a voltage, in this order.
use vstd::prelude::*;

use crate::circuit::{Circuit, Device, DeviceId, NodeId};
use crate::ids;
use crate::ids::ascending;
use crate::scalar::Scalar;

verus! {

/// What a device-private unknown is for.
#[derive(Clone, Copy, Debug, PartialEq, Eq, Structural)]
pub enum Pool {
    Bjt,
    Mosfet,
    Diode,
    Branch,
}

/// One if the number is above zero.
pub open spec fn one_if_positive<S: Scalar>(v: S) -> nat {
    if S::spec_zero().spec_less(v) {
        1
    } else {
        0
    }
}

/// How many unknowns of a pool a device takes.
pub open spec fn need<S: Scalar>(dev: Device<S>, pool: Pool) -> nat {
    match (pool, dev) {
        (Pool::Bjt, Device::Bjt { model, .. }) => one_if_positive(model.rc) + one_if_positive(
            model.rb,
        ) + one_if_positive(model.re),
        (Pool::Mosfet, Device::Mosfet { model, .. }) => one_if_positive(model.rd)
            + one_if_positive(model.rs),
        (Pool::Diode, Device::Diode { model, .. }) => one_if_positive(model.rs),
        (Pool::Branch, _) => if dev.spec_owns_branch() {
            1
        } else {
            0
        },
        _ => 0,
    }
}

/// How many unknowns of a pool the first `count` devices take.
pub open spec fn taken<S: Scalar>(devices: Seq<Device<S>>, pool: Pool, count: nat) -> nat
    decreases count,
{
    if count == 0 {
        0
    } else {
        taken(devices, pool, (count - 1) as nat) + need(devices[count - 1], pool)
    }
}

/// Where the unknowns of a pool start, after `external` node unknowns.
pub open spec fn pool_base<S: Scalar>(devices: Seq<Device<S>>, external: nat, pool: Pool) -> nat {
    let all = devices.len();
    match pool {
        Pool::Bjt => external,
        Pool::Mosfet => external + taken(devices, Pool::Bjt, all),
        Pool::Diode => external + taken(devices, Pool::Bjt, all) + taken(
            devices,
            Pool::Mosfet,
            all,
        ),
        Pool::Branch => external + taken(devices, Pool::Bjt, all) + taken(
            devices,
            Pool::Mosfet,
            all,
        ) + taken(devices, Pool::Diode, all),
    }
}

/// The number of unknowns, with `external` node unknowns.
pub open spec fn system_size<S: Scalar>(devices: Seq<Device<S>>, external: nat) -> nat {
    pool_base(devices, external, Pool::Branch) + taken(devices, Pool::Branch, devices.len())
}

/// The unknown of the `slot`-th one that device `d` takes from a pool.
pub open spec fn private_unknown<S: Scalar>(
    devices: Seq<Device<S>>,
    external: nat,
    pool: Pool,
    d: int,
    slot: nat,
) -> int {
    (pool_base(devices, external, pool) + taken(devices, pool, d as nat) + slot) as int
}

/// The unknown behind a terminal, if its resistance is positive; `before` others
/// of the same device come first.
pub open spec fn behind<S: Scalar>(
    devices: Seq<Device<S>>,
    external: nat,
    pool: Pool,
    d: int,
    before: nat,
    resistance: S,
) -> Option<usize> {
    if S::spec_zero().spec_less(resistance) {
        Some(private_unknown(devices, external, pool, d, before) as usize)
    } else {
        None
    }
}

/// The internal unknowns of a bipolar transistor: collector, base, emitter.
pub open spec fn bjt_unknowns<S: Scalar>(
    devices: Seq<Device<S>>,
    external: nat,
    d: int,
) -> Seq<Option<usize>> {
    match devices[d] {
        Device::Bjt { model, .. } => seq![
            behind(devices, external, Pool::Bjt, d, 0, model.rc),
            behind(devices, external, Pool::Bjt, d, one_if_positive(model.rc), model.rb),
            behind(
                devices,
                external,
                Pool::Bjt,
                d,
                one_if_positive(model.rc) + one_if_positive(model.rb),
                model.re,
            ),
        ],
        _ => seq![None, None, None],
    }
}

/// The internal unknowns of a MOS transistor: drain, source.
pub open spec fn mos_unknowns<S: Scalar>(
    devices: Seq<Device<S>>,
    external: nat,
    d: int,
) -> Seq<Option<usize>> {
    match devices[d] {
        Device::Mosfet { model, .. } => seq![
            behind(devices, external, Pool::Mosfet, d, 0, model.rd),
            behind(devices, external, Pool::Mosfet, d, one_if_positive(model.rd), model.rs),
        ],
        _ => seq![None, None],
    }
}

/// The internal anode of a diode.
pub open spec fn diode_unknown<S: Scalar>(
    devices: Seq<Device<S>>,
    external: nat,
    d: int,
) -> Option<usize> {
    match devices[d] {
        Device::Diode { model, .. } => behind(devices, external, Pool::Diode, d, 0, model.rs),
        _ => None,
    }
}

/// The branch current unknown of a device.
pub open spec fn branch_unknown<S: Scalar>(
    devices: Seq<Device<S>>,
    external: nat,
    d: int,
) -> Option<usize> {
    if devices[d].spec_owns_branch() {
        Some(private_unknown(devices, external, Pool::Branch, d, 0) as usize)
    } else {
        None
    }
}

/// The inductance of a device.
pub open spec fn henries_of<S: Scalar>(devices: Seq<Device<S>>, id: DeviceId) -> S {
    match devices[id.0 as int] {
        Device::Inductor { henries, .. } => henries,
        _ => S::spec_zero(),
    }
}

/// The mutual inductance of a coupling: `k * sqrt(L1 * L2)`.
pub open spec fn mutual<S: Scalar>(devices: Seq<Device<S>>, l1: DeviceId, l2: DeviceId, k: S) -> S {
    k.spec_times(henries_of(devices, l1).spec_times(henries_of(devices, l2)).spec_sqrt())
}

/// The windings coupled to device `d` by the first `count` devices, each with
/// its mutual inductance.
pub open spec fn partners<S: Scalar>(
    devices: Seq<Device<S>>,
    d: int,
    count: nat,
) -> Seq<(DeviceId, S)>
    decreases count,
{
    if count == 0 {
        Seq::empty()
    } else {
        let rest = partners(devices, d, (count - 1) as nat);
        match devices[count - 1] {
            Device::Coupling { l1, l2, k, .. } => {
                let m = mutual(devices, l1, l2, k);
                let one = if l1.0 == d {
                    rest.push((l2, m))
                } else {
                    rest
                };
                if l2.0 == d {
                    one.push((l1, m))
                } else {
                    one
                }
            },
            _ => rest,
        }
    }
}

/// Whether every coupling joins two inductors of the circuit.
pub open spec fn couplings_resolve<S>(devices: Seq<Device<S>>) -> bool {
    forall|d: int|
        #![trigger devices[d]]
        0 <= d < devices.len() ==> match devices[d] {
            Device::Coupling { l1, l2, .. } => l1.0 < devices.len() && l2.0 < devices.len()
                && devices[l1.0 as int] is Inductor && devices[l2.0 as int] is Inductor,
            _ => true,
        }
}

/// Whether some device touches the node.
pub open spec fn used<S>(devices: Seq<Device<S>>, n: NodeId) -> bool {
    exists|d: int| 0 <= d < devices.len() && (#[trigger] devices[d]).spec_nodes().contains(n)
}

/// The nodes that devices use beyond the named ones, ascending.
pub open spec fn is_extra<S: Scalar>(circuit: &Circuit<S>, extra: Seq<NodeId>) -> bool {
    &&& ascending(extra)
    &&& forall|n: NodeId|
        #[trigger] extra.contains(n) <==> n.0 >= circuit.node_names().len() && used(
            circuit.devices@,
            n,
        )
}

/// Maps nodes, device-private nodes and branches to unknowns.
///
/// Named node `k` has unknown `k - 1`. Nodes in use beyond the named ones follow
/// in ascending order, one unknown each, however sparse their numbers. Ground has
/// none.
#[derive(Debug)]
pub struct Layout<S> {
    /// Number of node unknowns, device-private ones included.
    pub n_nodes: usize,
    /// Number of unknowns.
    pub size: usize,
    /// Number of named non-ground nodes.
    pub named: usize,
    /// The nodes in use beyond the named ones, ascending.
    pub extra: Vec<NodeId>,
    pub branch_of: Vec<Option<usize>>,
    pub bjt_internal_of: Vec<[Option<usize>; 3]>,
    pub mos_internal_of: Vec<[Option<usize>; 2]>,
    pub diode_internal_of: Vec<Option<usize>>,
    pub couplings: Vec<Vec<(DeviceId, S)>>,
}

impl<S: Scalar> Layout<S> {
    /// Number of node unknowns that are not private to a device.
    pub open spec fn external(&self) -> nat {
        (self.named + self.extra@.len()) as nat
    }

    /// The unknown of a node.
    pub open spec fn spec_node(&self, n: NodeId) -> Option<usize> {
        if n.0 == 0 {
            None
        } else if n.0 <= self.named {
            Some((n.0 - 1) as usize)
        } else if self.extra@.contains(n) {
            Some((self.named + self.extra@.index_of(n)) as usize)
        } else {
            None
        }
    }

    /// The node of an unknown.
    pub open spec fn spec_node_id(&self, unknown: usize) -> Option<NodeId> {
        if unknown < self.named {
            Some(NodeId((unknown + 1) as u32))
        } else if unknown < self.external() {
            Some(self.extra@[unknown - self.named])
        } else {
            None
        }
    }

    /// Whether this is the layout of the circuit.
    pub open spec fn lays_out(&self, circuit: &Circuit<S>) -> bool {
        let devices = circuit.devices@;
        let ext = self.external();
        &&& self.named == circuit.node_names().len() - 1
        &&& is_extra(circuit, self.extra@)
        &&& self.n_nodes == pool_base(devices, ext, Pool::Branch)
        &&& self.size == system_size(devices, ext)
        &&& self.branch_of@.len() == devices.len()
        &&& self.bjt_internal_of@.len() == devices.len()
        &&& self.mos_internal_of@.len() == devices.len()
        &&& self.diode_internal_of@.len() == devices.len()
        &&& self.couplings@.len() == devices.len()
        &&& forall|d: int|
            #![trigger self.branch_of@[d]]
            0 <= d < devices.len() ==> self.branch_of@[d] == branch_unknown(devices, ext, d)
        &&& forall|d: int|
            #![trigger self.bjt_internal_of@[d]]
            0 <= d < devices.len() ==> self.bjt_internal_of@[d]@ == bjt_unknowns(devices, ext, d)
        &&& forall|d: int|
            #![trigger self.mos_internal_of@[d]]
            0 <= d < devices.len() ==> self.mos_internal_of@[d]@ == mos_unknowns(devices, ext, d)
        &&& forall|d: int|
            #![trigger self.diode_internal_of@[d]]
            0 <= d < devices.len() ==> self.diode_internal_of@[d] == diode_unknown(devices, ext, d)
        &&& forall|d: int|
            #![trigger self.couplings@[d]]
            0 <= d < devices.len() ==> self.couplings@[d]@ == partners(devices, d, devices.len())
    }
}

/// Two ascending lists of the same extra nodes are one list.
pub proof fn lemma_extra_unique<S: Scalar>(circuit: &Circuit<S>, a: Seq<NodeId>, b: Seq<NodeId>)
    requires
        is_extra(circuit, a),
        is_extra(circuit, b),
    ensures
        a == b,
{
    assert forall|n: NodeId| a.contains(n) <==> b.contains(n) by {}
    ids::lemma_ascending_unique(a, b);
}

pub proof fn lemma_taken<S: Scalar>(devices: Seq<Device<S>>, pool: Pool, a: nat, b: nat)
    requires
        a <= b,
    ensures
        taken(devices, pool, a) <= taken(devices, pool, b),
        a < b ==> taken(devices, pool, a) + need(devices[a as int], pool) <= taken(
            devices,
            pool,
            b,
        ),
    decreases b,
{
    if a < b {
        lemma_taken(devices, pool, a, (b - 1) as nat);
    }
}

/// The nodes in use beyond the named ones.
pub open spec fn extra_nodes<S: Scalar>(circuit: &Circuit<S>) -> Seq<NodeId> {
    choose|extra: Seq<NodeId>| is_extra(circuit, extra)
}

/// Number of unknowns of a circuit.
pub open spec fn unknown_count<S: Scalar>(circuit: &Circuit<S>) -> nat {
    system_size(
        circuit.devices@,
        (circuit.node_names().len() - 1 + extra_nodes(circuit).len()) as nat,
    )
}

/// The nodes in use beyond the named ones.
fn collect_extra<S: Scalar>(circuit: &Circuit<S>) -> (r: Vec<NodeId>)
    ensures
        is_extra(circuit, r@),
{
    let ghost devs = circuit.devices@;
    let count: usize = circuit.node_count();
    let mut extra: Vec<NodeId> = Vec::new();
    let mut d: usize = 0;
    while d < circuit.devices.len()
        invariant
            d <= devs.len(),
            devs == circuit.devices@,
            count == circuit.node_names().len(),
            ascending(extra@),
            forall|n: NodeId|
                #[trigger] extra@.contains(n) <==> n.0 >= count && used(devs.take(d as int), n),
        decreases devs.len() - d,
    {
        let nodes = circuit.devices[d].nodes();
        let ghost held = extra@;
        let mut i: usize = 0;
        while i < nodes.len()
            invariant
                i <= nodes@.len(),
                ascending(extra@),
                forall|n: NodeId|
                    #[trigger] extra@.contains(n) <==> held.contains(n) || (n.0 >= count
                        && nodes@.take(i as int).contains(n)),
            decreases nodes@.len() - i,
        {
            let ghost part = nodes@.take(i as int);
            let ghost more = nodes@.take(i + 1);
            let ghost now = extra@;
            assert(more =~= part.push(nodes@[i as int]));
            assert forall|n: NodeId| #[trigger] more.contains(n) <==> part.contains(n) || n
                == nodes@[i as int] by {
                if part.contains(n) {
                    let j = choose|j: int| 0 <= j < part.len() && part[j] == n;
                    assert(more[j] == n);
                }
                if n == nodes@[i as int] {
                    assert(more[i as int] == n);
                }
                if more.contains(n) {
                    let j = choose|j: int| 0 <= j < more.len() && more[j] == n;
                    if j < i {
                        assert(part[j] == n);
                    }
                }
            }
            if nodes[i].0 as usize >= count {
                ids::insert(&mut extra, nodes[i]);
            }
            assert forall|n: NodeId|
                #[trigger] extra@.contains(n) <==> held.contains(n) || (n.0 >= count
                    && more.contains(n)) by {
                assert(now.contains(n) <==> held.contains(n) || (n.0 >= count && part.contains(n)));
                assert(more.contains(n) <==> part.contains(n) || n == nodes@[i as int]);
            }
            i = i + 1;
        }
        assert(nodes@.take(i as int) =~= nodes@);
        assert forall|n: NodeId|
            #[trigger] extra@.contains(n) <==> n.0 >= count && used(devs.take(d + 1), n) by {
            assert(held.contains(n) <==> n.0 >= count && used(devs.take(d as int), n));
            if used(devs.take(d as int), n) {
                let k = choose|k: int|
                    0 <= k < devs.take(d as int).len() && (#[trigger] devs.take(
                        d as int,
                    )[k]).spec_nodes().contains(n);
                assert(devs.take(d + 1)[k] == devs.take(d as int)[k]);
            }
            if nodes@.contains(n) {
                assert(devs.take(d + 1)[d as int].spec_nodes().contains(n));
            }
            if used(devs.take(d + 1), n) {
                let k = choose|k: int|
                    0 <= k < devs.take(d + 1).len() && (#[trigger] devs.take(
                        d + 1,
                    )[k]).spec_nodes().contains(n);
                if k < d {
                    assert(devs.take(d as int)[k] == devs.take(d + 1)[k]);
                }
            }
        }
        d = d + 1;
    }
    assert(devs.take(d as int) =~= devs);
    extra
}

/// Take an unknown for a positive resistance.
fn take_unknown<S: Scalar>(resistance: S, next: usize) -> (r: (Option<usize>, usize))
    requires
        next + one_if_positive(resistance) <= usize::MAX,
    ensures
        r.0 == if S::spec_zero().spec_less(resistance) {
            Some(next)
        } else {
            None
        },
        r.1 == next + one_if_positive(resistance),
{
    if S::zero().less(resistance) {
        (Some(next), next + 1)
    } else {
        (None, next)
    }
}

fn alloc_bjts<S: Scalar>(circuit: &Circuit<S>, Ghost(ext): Ghost<nat>, start: usize) -> (r: (
    Vec<[Option<usize>; 3]>,
    usize,
))
    requires
        start == pool_base(circuit.devices@, ext, Pool::Bjt),
        start + taken(circuit.devices@, Pool::Bjt, circuit.devices@.len()) <= usize::MAX,
    ensures
        r.0@.len() == circuit.devices@.len(),
        forall|d: int|
            #![trigger r.0@[d]]
            0 <= d < r.0@.len() ==> r.0@[d]@ == bjt_unknowns(circuit.devices@, ext, d),
        r.1 == start + taken(circuit.devices@, Pool::Bjt, circuit.devices@.len()),
{
    let ghost devs = circuit.devices@;
    let mut out: Vec<[Option<usize>; 3]> = Vec::new();
    let mut next: usize = start;
    let mut d: usize = 0;
    while d < circuit.devices.len()
        invariant
            d <= devs.len(),
            devs == circuit.devices@,
            start == pool_base(devs, ext, Pool::Bjt),
            start + taken(devs, Pool::Bjt, devs.len()) <= usize::MAX,
            next == start + taken(devs, Pool::Bjt, d as nat),
            out@.len() == d,
            forall|k: int|
                #![trigger out@[k]]
                0 <= k < d ==> out@[k]@ == bjt_unknowns(devs, ext, k),
        decreases devs.len() - d,
    {
        proof {
            lemma_taken(devs, Pool::Bjt, d as nat, devs.len());
        }
        let got: [Option<usize>; 3] = match &circuit.devices[d] {
            Device::Bjt { model, .. } => {
                let (c, n1) = take_unknown(model.rc, next);
                let (b, n2) = take_unknown(model.rb, n1);
                let (e, n3) = take_unknown(model.re, n2);
                next = n3;
                [c, b, e]
            },
            _ => [None, None, None],
        };
        assert(got@ =~= bjt_unknowns(devs, ext, d as int));
        out.push(got);
        d = d + 1;
    }
    (out, next)
}

fn alloc_mosfets<S: Scalar>(circuit: &Circuit<S>, Ghost(ext): Ghost<nat>, start: usize) -> (r: (
    Vec<[Option<usize>; 2]>,
    usize,
))
    requires
        start == pool_base(circuit.devices@, ext, Pool::Mosfet),
        start + taken(circuit.devices@, Pool::Mosfet, circuit.devices@.len()) <= usize::MAX,
    ensures
        r.0@.len() == circuit.devices@.len(),
        forall|d: int|
            #![trigger r.0@[d]]
            0 <= d < r.0@.len() ==> r.0@[d]@ == mos_unknowns(circuit.devices@, ext, d),
        r.1 == start + taken(circuit.devices@, Pool::Mosfet, circuit.devices@.len()),
{
    let ghost devs = circuit.devices@;
    let mut out: Vec<[Option<usize>; 2]> = Vec::new();
    let mut next: usize = start;
    let mut d: usize = 0;
    while d < circuit.devices.len()
        invariant
            d <= devs.len(),
            devs == circuit.devices@,
            start == pool_base(devs, ext, Pool::Mosfet),
            start + taken(devs, Pool::Mosfet, devs.len()) <= usize::MAX,
            next == start + taken(devs, Pool::Mosfet, d as nat),
            out@.len() == d,
            forall|k: int|
                #![trigger out@[k]]
                0 <= k < d ==> out@[k]@ == mos_unknowns(devs, ext, k),
        decreases devs.len() - d,
    {
        proof {
            lemma_taken(devs, Pool::Mosfet, d as nat, devs.len());
        }
        let got: [Option<usize>; 2] = match &circuit.devices[d] {
            Device::Mosfet { model, .. } => {
                let (drain, n1) = take_unknown(model.rd, next);
                let (source, n2) = take_unknown(model.rs, n1);
                next = n2;
                [drain, source]
            },
            _ => [None, None],
        };
        assert(got@ =~= mos_unknowns(devs, ext, d as int));
        out.push(got);
        d = d + 1;
    }
    (out, next)
}

fn alloc_diodes<S: Scalar>(circuit: &Circuit<S>, Ghost(ext): Ghost<nat>, start: usize) -> (r: (
    Vec<Option<usize>>,
    usize,
))
    requires
        start == pool_base(circuit.devices@, ext, Pool::Diode),
        start + taken(circuit.devices@, Pool::Diode, circuit.devices@.len()) <= usize::MAX,
    ensures
        r.0@.len() == circuit.devices@.len(),
        forall|d: int|
            #![trigger r.0@[d]]
            0 <= d < r.0@.len() ==> r.0@[d] == diode_unknown(circuit.devices@, ext, d),
        r.1 == start + taken(circuit.devices@, Pool::Diode, circuit.devices@.len()),
{
    let ghost devs = circuit.devices@;
    let mut out: Vec<Option<usize>> = Vec::new();
    let mut next: usize = start;
    let mut d: usize = 0;
    while d < circuit.devices.len()
        invariant
            d <= devs.len(),
            devs == circuit.devices@,
            start == pool_base(devs, ext, Pool::Diode),
            start + taken(devs, Pool::Diode, devs.len()) <= usize::MAX,
            next == start + taken(devs, Pool::Diode, d as nat),
            out@.len() == d,
            forall|k: int|
                #![trigger out@[k]]
                0 <= k < d ==> out@[k] == diode_unknown(devs, ext, k),
        decreases devs.len() - d,
    {
        proof {
            lemma_taken(devs, Pool::Diode, d as nat, devs.len());
        }
        let got: Option<usize> = match &circuit.devices[d] {
            Device::Diode { model, .. } => {
                let (anode, n1) = take_unknown(model.rs, next);
                next = n1;
                anode
            },
            _ => None,
        };
        out.push(got);
        d = d + 1;
    }
    (out, next)
}

fn alloc_branches<S: Scalar>(circuit: &Circuit<S>, Ghost(ext): Ghost<nat>, start: usize) -> (r: (
    Vec<Option<usize>>,
    usize,
))
    requires
        start == pool_base(circuit.devices@, ext, Pool::Branch),
        start + taken(circuit.devices@, Pool::Branch, circuit.devices@.len()) <= usize::MAX,
    ensures
        r.0@.len() == circuit.devices@.len(),
        forall|d: int|
            #![trigger r.0@[d]]
            0 <= d < r.0@.len() ==> r.0@[d] == branch_unknown(circuit.devices@, ext, d),
        r.1 == start + taken(circuit.devices@, Pool::Branch, circuit.devices@.len()),
{
    let ghost devs = circuit.devices@;
    let mut out: Vec<Option<usize>> = Vec::new();
    let mut next: usize = start;
    let mut d: usize = 0;
    while d < circuit.devices.len()
        invariant
            d <= devs.len(),
            devs == circuit.devices@,
            start == pool_base(devs, ext, Pool::Branch),
            start + taken(devs, Pool::Branch, devs.len()) <= usize::MAX,
            next == start + taken(devs, Pool::Branch, d as nat),
            out@.len() == d,
            forall|k: int|
                #![trigger out@[k]]
                0 <= k < d ==> out@[k] == branch_unknown(devs, ext, k),
        decreases devs.len() - d,
    {
        proof {
            lemma_taken(devs, Pool::Branch, d as nat, devs.len());
        }
        if circuit.devices[d].owns_branch() {
            out.push(Some(next));
            next = next + 1;
        } else {
            out.push(None);
        }
        d = d + 1;
    }
    (out, next)
}

fn inductance<S: Scalar>(circuit: &Circuit<S>, id: DeviceId) -> (r: S)
    requires
        id.0 < circuit.devices@.len(),
    ensures
        r == henries_of(circuit.devices@, id),
{
    match &circuit.devices[id.0 as usize] {
        Device::Inductor { henries, .. } => *henries,
        _ => S::zero(),
    }
}

fn couple<S: Scalar>(circuit: &Circuit<S>) -> (r: Vec<Vec<(DeviceId, S)>>)
    requires
        couplings_resolve(circuit.devices@),
    ensures
        r@.len() == circuit.devices@.len(),
        forall|d: int|
            #![trigger r@[d]]
            0 <= d < r@.len() ==> r@[d]@ == partners(
                circuit.devices@,
                d,
                circuit.devices@.len(),
            ),
{
    let ghost devs = circuit.devices@;
    let total: usize = circuit.devices.len();
    let mut out: Vec<Vec<(DeviceId, S)>> = Vec::new();
    let mut d: usize = 0;
    while d < total
        invariant
            d <= total,
            out@.len() == d,
            forall|k: int|
                #![trigger out@[k]]
                0 <= k < d ==> out@[k]@ == partners(devs, k, 0),
        decreases total - d,
    {
        let empty: Vec<(DeviceId, S)> = Vec::new();
        assert(empty@ =~= partners(devs, d as int, 0));
        out.push(empty);
        d = d + 1;
    }
    let mut j: usize = 0;
    while j < total
        invariant
            j <= total,
            total == devs.len(),
            devs == circuit.devices@,
            couplings_resolve(devs),
            out@.len() == devs.len(),
            forall|k: int|
                #![trigger out@[k]]
                0 <= k < devs.len() ==> out@[k]@ == partners(devs, k, j as nat),
        decreases total - j,
    {
        let ghost before = out@;
        match &circuit.devices[j] {
            Device::Coupling { l1, l2, k, .. } => {
                assert(devs[j as int] is Coupling);
                let m: S = k.times(
                    inductance(circuit, *l1).times(inductance(circuit, *l2)).sqrt(),
                );
                let a: usize = l1.0 as usize;
                let b: usize = l2.0 as usize;
                out[a].push((*l2, m));
                let ghost mid = out@;
                out[b].push((*l1, m));
                assert forall|w: int|
                    #![trigger out@[w]]
                    0 <= w < devs.len() implies out@[w]@ == partners(
                    devs,
                    w,
                    (j + 1) as nat,
                ) by {
                    assert(before[w]@ == partners(devs, w, j as nat));
                    if w == a {
                        assert(mid[w]@ == before[w]@.push((*l2, m)));
                    } else {
                        assert(mid[w] == before[w]);
                    }
                    if w == b {
                        assert(out@[w]@ == mid[w]@.push((*l1, m)));
                    } else {
                        assert(out@[w] == mid[w]);
                    }
                }
            },
            _ => {},
        }
        j = j + 1;
    }
    out
}

impl<S: Scalar> Layout<S> {
    /// Lay out the unknowns of a circuit.
    pub fn new(circuit: &Circuit<S>) -> (r: Layout<S>)
        requires
            circuit.wf(),
            couplings_resolve(circuit.devices@),
            unknown_count(circuit) <= usize::MAX,
        ensures
            r.lays_out(circuit),
    {
        let ghost devs = circuit.devices@;
        let named: usize = circuit.node_count() - 1;
        let extra = collect_extra(circuit);
        let ghost ext = (named + extra@.len()) as nat;
        proof {
            lemma_extra_unique(circuit, extra@, extra_nodes(circuit));
            assert(unknown_count(circuit) == system_size(devs, ext));
        }
        let external: usize = named + extra.len();
        let (bjt_internal_of, after_bjt) = alloc_bjts(circuit, Ghost(ext), external);
        let (mos_internal_of, after_mos) = alloc_mosfets(circuit, Ghost(ext), after_bjt);
        let (diode_internal_of, n_nodes) = alloc_diodes(circuit, Ghost(ext), after_mos);
        let (branch_of, size) = alloc_branches(circuit, Ghost(ext), n_nodes);
        let couplings = couple(circuit);
        Layout {
            n_nodes,
            size,
            named,
            extra,
            branch_of,
            bjt_internal_of,
            mos_internal_of,
            diode_internal_of,
            couplings,
        }
    }

    /// Unknown of a node; ground and unused out-of-range nodes have none.
    pub fn node(&self, node: NodeId) -> (r: Option<usize>)
        requires
            ascending(self.extra@),
            self.external() <= usize::MAX,
        ensures
            r == self.spec_node(node),
    {
        if node.0 == 0 {
            None
        } else if node.0 as usize <= self.named {
            Some(node.0 as usize - 1)
        } else {
            let at: usize = ids::rank(&self.extra, node);
            if at < self.extra.len() && self.extra[at].0 == node.0 {
                assert(self.extra@[at as int] == node);
                proof {
                    lemma_index_of(self.extra@, at as int);
                }
                Some(self.named + at)
            } else {
                assert forall|i: int| 0 <= i < self.extra@.len() implies self.extra@[i] != node by {
                    if at < i {
                        assert(self.extra@[at as int].0 < self.extra@[i].0);
                    }
                }
                None
            }
        }
    }

    /// Node of an unknown; private unknowns and branches have none.
    pub fn node_id(&self, unknown: usize) -> (r: Option<NodeId>)
        requires
            self.named < u32::MAX,
            self.external() <= usize::MAX,
        ensures
            r == self.spec_node_id(unknown),
    {
        if unknown < self.named {
            Some(NodeId((unknown + 1) as u32))
        } else if unknown - self.named < self.extra.len() {
            Some(self.extra[unknown - self.named])
        } else {
            None
        }
    }

    /// Branch current unknown of a device, if it owns one.
    pub fn branch(&self, id: DeviceId) -> (r: Option<usize>)
        requires
            id.0 < self.branch_of@.len(),
        ensures
            r == self.branch_of@[id.0 as int],
    {
        self.branch_of[id.0 as usize]
    }

    /// The windings coupled to an inductor, each with its mutual inductance.
    pub fn mutual_partners(&self, id: DeviceId) -> (r: &[(DeviceId, S)])
        requires
            id.0 < self.couplings@.len(),
        ensures
            r@ == self.couplings@[id.0 as int]@,
    {
        self.couplings[id.0 as usize].as_slice()
    }

    /// Internal unknowns of a bipolar transistor, collector, base and emitter, if
    /// it has any.
    pub fn bjt_internal(&self, id: DeviceId) -> (r: Option<&[Option<usize>; 3]>)
        requires
            id.0 < self.bjt_internal_of@.len(),
        ensures
            match r {
                Some(got) => *got == self.bjt_internal_of@[id.0 as int] && (got@[0] is Some
                    || got@[1] is Some || got@[2] is Some),
                None => self.bjt_internal_of@[id.0 as int]@ == seq![None::<usize>, None, None],
            },
    {
        let ints = &self.bjt_internal_of[id.0 as usize];
        if ints[0].is_some() || ints[1].is_some() || ints[2].is_some() {
            Some(ints)
        } else {
            assert(ints@ =~= seq![None::<usize>, None, None]);
            None
        }
    }

    /// Internal unknowns of a MOS transistor, drain and source, if it has any.
    pub fn mos_internal(&self, id: DeviceId) -> (r: Option<&[Option<usize>; 2]>)
        requires
            id.0 < self.mos_internal_of@.len(),
        ensures
            match r {
                Some(got) => *got == self.mos_internal_of@[id.0 as int] && (got@[0] is Some
                    || got@[1] is Some),
                None => self.mos_internal_of@[id.0 as int]@ == seq![None::<usize>, None],
            },
    {
        let ints = &self.mos_internal_of[id.0 as usize];
        if ints[0].is_some() || ints[1].is_some() {
            Some(ints)
        } else {
            assert(ints@ =~= seq![None::<usize>, None]);
            None
        }
    }

    /// Internal anode of a diode with a series resistance.
    pub fn diode_internal(&self, id: DeviceId) -> (r: Option<usize>)
        requires
            id.0 < self.diode_internal_of@.len(),
        ensures
            r == self.diode_internal_of@[id.0 as int],
    {
        self.diode_internal_of[id.0 as usize]
    }
}

proof fn lemma_index_of(s: Seq<NodeId>, at: int)
    requires
        ascending(s),
        0 <= at < s.len(),
    ensures
        s.index_of(s[at]) == at,
{
    let k = s.index_of(s[at]);
    assert(s.contains(s[at]));
    assert(0 <= k < s.len() && s[k] == s[at]);
    if k < at {
        assert(s[k].0 < s[at].0);
    } else if at < k {
        assert(s[at].0 < s[k].0);
    }
}

/// A node and its unknown determine each other.
pub proof fn law_nodes_and_unknowns_match<S: Scalar>(
    circuit: &Circuit<S>,
    layout: &Layout<S>,
    n: NodeId,
    unknown: usize,
)
    requires
        circuit.wf(),
        layout.lays_out(circuit),
    ensures
        layout.spec_node(n) == Some(unknown) <==> layout.spec_node_id(unknown) == Some(n),
        layout.spec_node(n) == Some(unknown) ==> unknown < layout.external() <= layout.n_nodes,
        n.0 != 0 && (n.0 < circuit.node_names().len() || used(circuit.devices@, n))
            ==> layout.spec_node(n) is Some,
{
    let extra = layout.extra@;
    assert(layout.external() <= layout.size);
    if layout.spec_node_id(unknown) == Some(n) && unknown >= layout.named {
        let k = unknown - layout.named;
        assert(extra[k] == n);
        assert(extra.contains(n));
        lemma_index_of(extra, k);
    }
    if n.0 != 0 && n.0 > layout.named && extra.contains(n) {
        let k = extra.index_of(n);
        assert(0 <= k < extra.len() && extra[k] == n);
    }
}

/// Whether the device takes the `slot`-th unknown of a pool.
pub open spec fn takes<S: Scalar>(devices: Seq<Device<S>>, pool: Pool, d: int, slot: nat) -> bool {
    0 <= d < devices.len() && slot < need(devices[d], pool)
}

/// Private unknowns follow the external nodes, those of node voltages before
/// those of branch currents, and no two are the same.
pub proof fn law_private_unknowns_are_distinct<S: Scalar>(
    devices: Seq<Device<S>>,
    external: nat,
    pool: Pool,
    d: int,
    slot: nat,
    other_pool: Pool,
    other_d: int,
    other_slot: nat,
)
    requires
        takes(devices, pool, d, slot),
        takes(devices, other_pool, other_d, other_slot),
    ensures
        external <= private_unknown(devices, external, pool, d, slot) < system_size(
            devices,
            external,
        ),
        private_unknown(devices, external, pool, d, slot) >= pool_base(
            devices,
            external,
            Pool::Branch,
        ) <==> pool == Pool::Branch,
        private_unknown(devices, external, pool, d, slot) == private_unknown(
            devices,
            external,
            other_pool,
            other_d,
            other_slot,
        ) <==> pool == other_pool && d == other_d && slot == other_slot,
{
    lemma_taken(devices, pool, d as nat, devices.len());
    lemma_taken(devices, other_pool, other_d as nat, devices.len());
    if pool == other_pool {
        if d < other_d {
            lemma_taken(devices, pool, d as nat, other_d as nat);
        } else if other_d < d {
            lemma_taken(devices, pool, other_d as nat, d as nat);
        }
    }
}

/// One bank of reactive history: a state per device, its derivative and the
/// state one step further back.
#[derive(Debug, Clone)]
pub struct SecondaryBank<S> {
    pub x1: Vec<S>,
    pub dx1: Vec<S>,
    pub x2: Vec<S>,
}

/// What reactive devices remember of earlier steps, by device number.
///
/// The primary bank holds one state per device: a capacitor's voltage, an
/// inductor's current, a junction's charge, the base-emitter charge of a bipolar
/// transistor, gate-source charge of a MOS transistor. The secondary banks
/// hold the further charges: base-collector in bank 0; gate-drain, bulk-drain
/// and bulk-source in banks 0, 1 and 2.
#[derive(Debug, Clone)]
pub struct ReactiveState<S> {
    pub x1: Vec<S>,
    pub dx1: Vec<S>,
    pub x2: Vec<S>,
    pub xb: [SecondaryBank<S>; 3],
}

/// `n` zeros.
pub open spec fn zeros<S: Scalar>(n: nat) -> Seq<S> {
    Seq::new(n, |i: int| S::spec_zero())
}

pub fn zero_vec<S: Scalar>(n: usize) -> (r: Vec<S>)
    ensures
        r@ == zeros::<S>(n as nat),
{
    let mut out: Vec<S> = Vec::new();
    let mut i: usize = 0;
    while i < n
        invariant
            i <= n,
            out@ == zeros::<S>(i as nat),
        decreases n - i,
    {
        out.push(S::zero());
        assert(out@ =~= zeros::<S>((i + 1) as nat));
        i = i + 1;
    }
    out
}

impl<S: Scalar> SecondaryBank<S> {
    pub open spec fn blank(&self, n: nat) -> bool {
        self.x1@ == zeros::<S>(n) && self.dx1@ == zeros::<S>(n) && self.x2@ == zeros::<S>(n)
    }

    /// Whether the bank has a slot per device.
    pub open spec fn sized(&self, n: nat) -> bool {
        self.x1@.len() == n && self.dx1@.len() == n && self.x2@.len() == n
    }

    fn new(n: usize) -> (r: Self)
        ensures
            r.blank(n as nat),
    {
        SecondaryBank { x1: zero_vec(n), dx1: zero_vec(n), x2: zero_vec(n) }
    }
}

impl<S: Scalar> ReactiveState<S> {
    /// Whether every bank has a slot per device.
    pub open spec fn sized(&self, n: nat) -> bool {
        &&& self.x1@.len() == n
        &&& self.dx1@.len() == n
        &&& self.x2@.len() == n
        &&& self.xb@[0].sized(n)
        &&& self.xb@[1].sized(n)
        &&& self.xb@[2].sized(n)
    }

    /// No history, for `n` devices.
    pub fn new(n: usize) -> (r: Self)
        ensures
            r.sized(n as nat),
            r.x1@ == zeros::<S>(n as nat),
            r.dx1@ == zeros::<S>(n as nat),
            r.x2@ == zeros::<S>(n as nat),
            forall|k: int| 0 <= k < 3 ==> (#[trigger] r.xb@[k]).blank(n as nat),
    {
        let banks = [SecondaryBank::new(n), SecondaryBank::new(n), SecondaryBank::new(n)];
        ReactiveState { x1: zero_vec(n), dx1: zero_vec(n), x2: zero_vec(n), xb: banks }
    }
}

/// The mutual inductance of a coupling squares to the square of its coefficient times
/// both inductances, where a root squares to what it is taken of, and is the same from
/// either winding.
pub proof fn law_a_mutual_inductance_is_the_geometric_mean<S: Scalar>(
    devices: Seq<Device<S>>,
    l1: DeviceId,
    l2: DeviceId,
    k: S,
)
    requires
        S::exact(),
        forall|y: S| (#[trigger] y.spec_sqrt()).spec_times(y.spec_sqrt()) == y,
    ensures
        mutual(devices, l1, l2, k) == mutual(devices, l2, l1, k),
        mutual(devices, l1, l2, k).spec_times(mutual(devices, l1, l2, k)) == k.spec_times(
            k,
        ).spec_times(henries_of(devices, l1).spec_times(henries_of(devices, l2))),
{
    let (a, b) = (henries_of(devices, l1), henries_of(devices, l2));
    let y = a.spec_times(b);
    let r = y.spec_sqrt();
    S::laws(a, b, b);
    S::laws(k, r, k.spec_times(r));
    S::laws(r, k, r);
    S::laws(k, r, r);
    S::laws(k, k, r.spec_times(r));
    S::laws(r, k.spec_times(r), r);
    S::laws(k.spec_times(r), r, r);
}

/// Coupling is mutual: a winding that counts another among those coupled to it is
/// counted by that other, with the same inductance, and by a coupling that names both.
pub proof fn law_coupled_windings_count_each_other<S: Scalar>(
    devices: Seq<Device<S>>,
    a: int,
    count: nat,
    at: int,
)
    requires
        count <= devices.len() <= u32::MAX,
        0 <= a <= u32::MAX,
        0 <= at < partners(devices, a, count).len(),
    ensures
        ({
            let (b, m) = partners(devices, a, count)[at];
            &&& partners(devices, b.0 as int, count).contains((DeviceId(a as u32), m))
            &&& exists|c: int|
                0 <= c < count && (#[trigger] devices[c] matches Device::Coupling {
                    l1,
                    l2,
                    k,
                    ..
                } && m == mutual(devices, l1, l2, k) && (l1.0 == a && l2 == b || l2.0 == a && l1
                    == b))
        }),
    decreases count,
{
    let all = partners(devices, a, count);
    let (b, m) = all[at];
    let rest = partners(devices, a, (count - 1) as nat);
    let other = partners(devices, b.0 as int, count);
    let before = partners(devices, b.0 as int, (count - 1) as nat);
    let me = (DeviceId(a as u32), m);
    if at < rest.len() {
        law_coupled_windings_count_each_other(devices, a, (count - 1) as nat, at);
        assert(all[at] == rest[at]);
        let j = choose|j: int| 0 <= j < before.len() && before[j] == me;
        assert(other[j] == me);
        let c = choose|c: int|
            0 <= c < count - 1 && (#[trigger] devices[c] matches Device::Coupling {
                l1,
                l2,
                k,
                ..
            } && m == mutual(devices, l1, l2, k) && (l1.0 == a && l2 == b || l2.0 == a && l1
                == b));
        assert(devices[c] is Coupling);
    } else {
        assert(devices[count - 1] is Coupling);
        match devices[count - 1] {
            Device::Coupling { l1, l2, k, .. } => {
                let n = before.len();
                if l1.0 == a && at == rest.len() {
                    assert(b == l2);
                    assert(other[other.len() - 1] == (l1, m));
                    assert(l1 == DeviceId(a as u32));
                } else {
                    assert(b == l1 && l2.0 == a);
                    assert(other[n as int] == (l2, m));
                    assert(l2 == DeviceId(a as u32));
                }
            },
            _ => {},
        }
    }
}

} // verus!
