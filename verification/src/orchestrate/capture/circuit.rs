//! The circuit that a cluster's capture solves.
use vstd::prelude::*;

use crate::circuit::{Circuit, Device, DeviceId, NodeId, SourceKind};
use crate::orchestrate::capture::blocks::{conducts, conducts_node, has_node, Fragmentation};
use crate::orchestrate::capture::outcome::{listed_value, value_of};
use crate::scalar::Scalar;
use crate::subcircuit::{extract, extracted, is_extract, local_id, mentions, unclaimed, SubCircuit};

verus! {

/// Whether a device conducts one of the listed nodes.
pub open spec fn conducts_any<S>(dev: Device<S>, nodes: Seq<NodeId>, count: int) -> bool {
    exists|m: int| 0 <= m < count && conducts(dev, #[trigger] nodes[m])
}

/// Whether a capture holds a device: it is in one of the blocks, or in none but
/// conducts a member, or rides along.
pub open spec fn in_capture<S: Scalar>(
    sub: &Circuit<S>,
    frag: &Fragmentation,
    blocks: Seq<bool>,
    members: Seq<NodeId>,
    companions: Seq<DeviceId>,
    d: int,
) -> bool {
    ||| match frag.device_block@[d] {
        Some(b) => blocks[b as int],
        None => conducts_any(sub.devices@[d], members, members.len() as int),
    }
    ||| companions.contains(DeviceId(d as u32))
}

/// The devices among the first `count` that a capture holds.
pub open spec fn capture_devices<S: Scalar>(
    sub: &Circuit<S>,
    frag: &Fragmentation,
    blocks: Seq<bool>,
    members: Seq<NodeId>,
    companions: Seq<DeviceId>,
    count: nat,
) -> Seq<DeviceId>
    decreases count,
{
    if count == 0 {
        Seq::empty()
    } else {
        let rest = capture_devices(sub, frag, blocks, members, companions, (count - 1) as nat);
        if in_capture(sub, frag, blocks, members, companions, count - 1) {
            rest.push(DeviceId((count - 1) as u32))
        } else {
            rest
        }
    }
}

fn any_conducted<S: Scalar>(dev: &Device<S>, nodes: &Vec<NodeId>) -> (r: bool)
    ensures
        r == conducts_any(*dev, nodes@, nodes@.len() as int),
{
    let mut m: usize = 0;
    while m < nodes.len()
        invariant
            m <= nodes@.len(),
            !conducts_any(*dev, nodes@, m as int),
        decreases nodes@.len() - m,
    {
        if conducts_node(dev, nodes[m]) {
            assert(conducts(*dev, nodes@[m as int]));
            return true;
        }
        m = m + 1;
    }
    false
}

fn rides_along(companions: &Vec<DeviceId>, id: DeviceId) -> (r: bool)
    ensures
        r == companions@.contains(id),
{
    let mut i: usize = 0;
    while i < companions.len()
        invariant
            i <= companions@.len(),
            forall|j: int| 0 <= j < i ==> companions@[j] != id,
        decreases companions@.len() - i,
    {
        if companions[i] == id {
            assert(companions@[i as int] == id);
            return true;
        }
        i = i + 1;
    }
    false
}

/// The devices of a capture, in device order.
pub fn select_devices<S: Scalar>(
    sub: &Circuit<S>,
    frag: &Fragmentation,
    blocks: &Vec<bool>,
    members: &Vec<NodeId>,
    companions: &Vec<DeviceId>,
) -> (r: Vec<DeviceId>)
    requires
        sub.wf(),
        frag.wf(sub),
        blocks@.len() == frag.count,
    ensures
        r@ == capture_devices(sub, frag, blocks@, members@, companions@, sub.devices@.len()),
        r@.len() <= sub.devices@.len(),
        forall|k: int| 0 <= k < r@.len() ==> (#[trigger] r@[k]).0 < sub.devices@.len(),
{
    let mut out: Vec<DeviceId> = Vec::new();
    let mut d: usize = 0;
    while d < sub.devices.len()
        invariant
            d <= sub.devices@.len(),
            sub.wf(),
            frag.wf(sub),
            blocks@.len() == frag.count,
            out@ == capture_devices(sub, frag, blocks@, members@, companions@, d as nat),
            out@.len() <= d,
            forall|k: int| 0 <= k < out@.len() ==> (#[trigger] out@[k]).0 < d,
        decreases sub.devices@.len() - d,
    {
        let id = DeviceId(d as u32);
        let own: bool = match frag.device_block[d] {
            Some(b) => blocks[b],
            None => any_conducted(&sub.devices[d], members),
        };
        if own || rides_along(companions, id) {
            out.push(id);
        }
        d = d + 1;
    }
    out
}

/// What the pins of a capture are driven with.
pub struct Drive<'a, S> {
    pub grid: &'a Vec<S>,
    /// The train of each node; without them pins are held at rest.
    pub trains: Option<&'a Vec<Vec<S>>>,
    /// The rest value of each node.
    pub rest: &'a Vec<S>,
    /// The nodes held at a train of their own, in node order.
    pub held: &'a Vec<(NodeId, Vec<S>)>,
}

/// The points of a train on a grid.
pub open spec fn points<S>(grid: Seq<S>, train: Seq<S>) -> Seq<(S, S)> {
    Seq::new(
        if grid.len() <= train.len() {
            grid.len()
        } else {
            train.len()
        },
        |k: int| (grid[k], train[k]),
    )
}

/// A piecewise-linear source through a train.
pub fn train_source<S: Scalar>(grid: &Vec<S>, train: &Vec<S>) -> (r: SourceKind<S>)
    ensures
        r matches SourceKind::Pwl(p) && p@ == points(grid@, train@),
{
    let mut out: Vec<(S, S)> = Vec::new();
    let mut k: usize = 0;
    while k < grid.len() && k < train.len()
        invariant
            k <= grid@.len(),
            k <= train@.len(),
            out@ == points(grid@, train@).take(k as int),
        decreases grid@.len() - k,
    {
        let ghost all = points(grid@, train@);
        out.push((grid[k], train[k]));
        assert(all.take(k + 1) =~= all.take(k as int).push(all[k as int]));
        k = k + 1;
    }
    assert(out@ =~= points(grid@, train@));
    SourceKind::Pwl(out)
}

/// The first value of a train, or zero.
pub open spec fn first_value<S: Scalar>(train: Seq<S>) -> S {
    if train.len() > 0 {
        train[0]
    } else {
        S::spec_zero()
    }
}

impl<'a, S: Scalar> Drive<'a, S> {
    /// What a candidate outside the cluster is driven with.
    pub open spec fn drives_candidate(&self, n: NodeId, kind: SourceKind<S>) -> bool {
        match self.trains {
            Some(trains) => kind matches SourceKind::Pwl(p) && p@ == points(
                self.grid@,
                trains@[n.0 as int]@,
            ),
            None => kind == SourceKind::Dc(listed_value(self.rest@, n)),
        }
    }

    /// What a held node is driven with.
    pub open spec fn drives_held(&self, train: Seq<S>, kind: SourceKind<S>) -> bool {
        match self.trains {
            Some(_) => kind matches SourceKind::Pwl(p) && p@ == points(self.grid@, train),
            None => kind == SourceKind::Dc(first_value(train)),
        }
    }

    fn candidate_source(&self, n: NodeId) -> (r: SourceKind<S>)
        requires
            self.trains matches Some(t) ==> n.0 < t@.len(),
        ensures
            self.drives_candidate(n, r),
    {
        match self.trains {
            Some(trains) => train_source(self.grid, &trains[n.0 as usize]),
            None => SourceKind::Dc(value_of(self.rest, n)),
        }
    }

    fn held_source(&self, train: &Vec<S>) -> (r: SourceKind<S>)
        ensures
            self.drives_held(train@, r),
    {
        match self.trains {
            Some(_) => train_source(self.grid, train),
            None => if train.len() > 0 {
                SourceKind::Dc(train[0])
            } else {
                SourceKind::Dc(S::zero())
            },
        }
    }
}

/// The candidates among the first `count` that a capture reaches and does not
/// solve.
pub open spec fn pinned_candidates(
    candidates: Seq<NodeId>,
    members: Seq<NodeId>,
    l2g: Seq<NodeId>,
    count: nat,
) -> Seq<NodeId>
    decreases count,
{
    if count == 0 {
        Seq::empty()
    } else {
        let rest = pinned_candidates(candidates, members, l2g, (count - 1) as nat);
        let n = candidates[count - 1];
        if !members.contains(n) && l2g.contains(n) {
            rest.push(n)
        } else {
            rest
        }
    }
}

/// The positions of the held nodes among the first `count` that a capture reaches.
pub open spec fn pinned_held<S>(
    held: Seq<(NodeId, Vec<S>)>,
    l2g: Seq<NodeId>,
    count: nat,
) -> Seq<int>
    decreases count,
{
    if count == 0 {
        Seq::empty()
    } else {
        let rest = pinned_held(held, l2g, (count - 1) as nat);
        if l2g.contains(held[count - 1].0) {
            rest.push(count - 1)
        } else {
            rest
        }
    }
}

/// Whether a device is an ideal source from a local node to ground.
pub open spec fn is_pin<S>(
    dev: Device<S>,
    name: Seq<char>,
    local: NodeId,
    drives: spec_fn(SourceKind<S>) -> bool,
) -> bool {
    match dev {
        Device::Vsource { name: own, p, n, kind } => own@ == name && p == local && n == NodeId(0)
            && drives(kind),
        _ => false,
    }
}

/// Whether a sub-circuit is a capture: the devices it holds, then a pin for every
/// candidate it reaches outside the cluster, then one for every held node.
pub open spec fn is_capture<S: Scalar>(
    sub: &Circuit<S>,
    ids: Seq<DeviceId>,
    members: Seq<NodeId>,
    candidates: Seq<NodeId>,
    drive: &Drive<S>,
    cap: &SubCircuit<S>,
) -> bool {
    let pins = pinned_candidates(candidates, members, cap.l2g@, candidates.len());
    let rails = pinned_held(drive.held@, cap.l2g@, drive.held@.len());
    let devices = cap.circuit.devices@;
    &&& cap.wf(sub)
    &&& cap.circuit.temp_c == sub.temp_c
    &&& extracted(sub, ids, cap.l2g@, devices.take(ids.len() as int), ids.len())
    &&& devices.len() == ids.len() + pins.len() + rails.len()
    &&& forall|k: int|
        0 <= k < pins.len() ==> #[trigger] is_candidate_pin(
            sub,
            drive,
            cap.l2g@,
            pins[k],
            devices[ids.len() + k],
        )
    &&& forall|k: int|
        0 <= k < rails.len() ==> #[trigger] is_held_pin(
            sub,
            drive,
            cap.l2g@,
            rails[k],
            devices[ids.len() + pins.len() + k],
        )
}

pub open spec fn is_candidate_pin<S: Scalar>(
    sub: &Circuit<S>,
    drive: &Drive<S>,
    l2g: Seq<NodeId>,
    n: NodeId,
    dev: Device<S>,
) -> bool {
    is_pin(
        dev,
        "VSTIFF_"@ + sub.node_names()[n.0 as int],
        local_id(l2g, n),
        |kind: SourceKind<S>| drive.drives_candidate(n, kind),
    )
}

pub open spec fn is_held_pin<S: Scalar>(
    sub: &Circuit<S>,
    drive: &Drive<S>,
    l2g: Seq<NodeId>,
    h: int,
    dev: Device<S>,
) -> bool {
    is_pin(
        dev,
        "VRAIL_"@ + sub.node_names()[drive.held@[h].0.0 as int],
        local_id(l2g, drive.held@[h].0),
        |kind: SourceKind<S>| drive.drives_held(drive.held@[h].1@, kind),
    )
}

/// Build the circuit of a cluster's capture. Members are interior: they get no pin
/// and are solved jointly.
pub fn capture_circuit<S: Scalar>(
    sub: &Circuit<S>,
    ids: &Vec<DeviceId>,
    members: &Vec<NodeId>,
    candidates: &Vec<NodeId>,
    drive: &Drive<S>,
) -> (r: SubCircuit<S>)
    requires
        sub.wf(),
        unclaimed(sub.node_names()),
        forall|k: int| 0 <= k < ids@.len() ==> (#[trigger] ids@[k]).0 < sub.devices@.len(),
        1 + mentions(sub, ids@, ids@.len()) <= u32::MAX,
        ids@.len() + candidates@.len() + drive.held@.len() <= u32::MAX,
        forall|i: int|
            0 <= i < candidates@.len() ==> (#[trigger] candidates@[i]).0 < sub.node_names().len(),
        forall|i: int|
            0 <= i < drive.held@.len() ==> (#[trigger] drive.held@[i]).0.0
                < sub.node_names().len(),
        drive.trains matches Some(t) ==> t@.len() >= sub.node_names().len(),
    ensures
        is_capture(sub, ids@, members@, candidates@, drive, &r),
{
    let mut cap: SubCircuit<S> = extract(sub, ids);
    let ghost plain = cap;
    let ghost l2g = cap.l2g@;
    let ghost n_ids = ids@.len();
    let mut i: usize = 0;
    while i < candidates.len()
        invariant
            i <= candidates@.len(),
            n_ids == ids@.len(),
            ids@.len() + candidates@.len() + drive.held@.len() <= u32::MAX,
            forall|i: int|
                0 <= i < candidates@.len() ==> (#[trigger] candidates@[i]).0
                    < sub.node_names().len(),
            drive.trains matches Some(t) ==> t@.len() >= sub.node_names().len(),
            cap.wf(sub),
            cap.l2g == plain.l2g,
            cap.l2g@ == l2g,
            cap.circuit.temp_c == plain.circuit.temp_c,
            plain.circuit.devices@.len() == n_ids,
            cap.circuit.devices@.take(n_ids as int) == plain.circuit.devices@,
            cap.circuit.devices@.len() == n_ids + pinned_candidates(
                candidates@,
                members@,
                l2g,
                i as nat,
            ).len(),
            pinned_candidates(candidates@, members@, l2g, i as nat).len() <= i,
            forall|k: int|
                0 <= k < pinned_candidates(candidates@, members@, l2g, i as nat).len()
                    ==> #[trigger] is_candidate_pin(
                    sub,
                    drive,
                    l2g,
                    pinned_candidates(candidates@, members@, l2g, i as nat)[k],
                    cap.circuit.devices@[n_ids + k],
                ),
        decreases candidates@.len() - i,
    {
        let n = candidates[i];
        let ghost pins = pinned_candidates(candidates@, members@, l2g, i as nat);
        let ghost more = pinned_candidates(candidates@, members@, l2g, (i + 1) as nat);
        let ghost before = cap.circuit.devices@;
        if !has_node(members, n) {
            match cap.local(sub, n) {
                Some(ln) => {
                    proof {
                        assert(l2g.contains(n)) by {
                            assert(l2g[ln.0 as int] == n);
                        }
                        assert(more == pins.push(n));
                    }
                    let mut name: String = String::from_str("VSTIFF_");
                    name.append(sub.node_name(n));
                    let pin = Device::Vsource {
                        name,
                        p: ln,
                        n: NodeId::ground(),
                        kind: drive.candidate_source(n),
                    };
                    let added = cap.add(sub, pin);
                    proof {
                        let after = cap.circuit.devices@;
                        assert(after.take(n_ids as int) =~= before.take(n_ids as int));
                        assert forall|k: int| 0 <= k < more.len() implies #[trigger] is_candidate_pin(
                            sub,
                            drive,
                            l2g,
                            more[k],
                            after[n_ids + k],
                        ) by {
                            if k < pins.len() {
                                assert(is_candidate_pin(
                                    sub,
                                    drive,
                                    l2g,
                                    pins[k],
                                    before[n_ids + k],
                                ));
                                assert(after[n_ids + k] == before[n_ids + k]);
                            }
                        }
                    }
                },
                None => {
                    assert(more == pins);
                },
            }
        } else {
            assert(more == pins);
        }
        i = i + 1;
    }
    let ghost pins = pinned_candidates(candidates@, members@, l2g, candidates@.len());
    let ghost base = cap.circuit.devices@;
    let mut h: usize = 0;
    while h < drive.held.len()
        invariant
            h <= drive.held@.len(),
            n_ids == ids@.len(),
            ids@.len() + candidates@.len() + drive.held@.len() <= u32::MAX,
            forall|i: int|
                0 <= i < drive.held@.len() ==> (#[trigger] drive.held@[i]).0.0
                    < sub.node_names().len(),
            cap.wf(sub),
            cap.l2g == plain.l2g,
            cap.l2g@ == l2g,
            cap.circuit.temp_c == plain.circuit.temp_c,
            base.len() == n_ids + pins.len(),
            pins.len() <= candidates@.len(),
            cap.circuit.devices@.take(base.len() as int) == base,
            cap.circuit.devices@.len() == base.len() + pinned_held(
                drive.held@,
                l2g,
                h as nat,
            ).len(),
            pinned_held(drive.held@, l2g, h as nat).len() <= h,
            forall|k: int|
                0 <= k < pinned_held(drive.held@, l2g, h as nat).len() ==> #[trigger] is_held_pin(
                    sub,
                    drive,
                    l2g,
                    pinned_held(drive.held@, l2g, h as nat)[k],
                    cap.circuit.devices@[base.len() + k],
                ),
        decreases drive.held@.len() - h,
    {
        let n = drive.held[h].0;
        let ghost rails = pinned_held(drive.held@, l2g, h as nat);
        let ghost more = pinned_held(drive.held@, l2g, (h + 1) as nat);
        let ghost before = cap.circuit.devices@;
        assert(drive.held@[h as int].0.0 < sub.node_names().len());
        match cap.local(sub, n) {
            Some(ln) => {
                proof {
                    assert(l2g.contains(n)) by {
                        assert(l2g[ln.0 as int] == n);
                    }
                    assert(more == rails.push(h as int));
                }
                let mut name: String = String::from_str("VRAIL_");
                name.append(sub.node_name(n));
                let pin = Device::Vsource {
                    name,
                    p: ln,
                    n: NodeId::ground(),
                    kind: drive.held_source(&drive.held[h].1),
                };
                let added = cap.add(sub, pin);
                proof {
                    let after = cap.circuit.devices@;
                    assert(after.take(base.len() as int) =~= before.take(base.len() as int));
                    assert forall|k: int| 0 <= k < more.len() implies #[trigger] is_held_pin(
                        sub,
                        drive,
                        l2g,
                        more[k],
                        after[base.len() + k],
                    ) by {
                        if k < rails.len() {
                            assert(is_held_pin(sub, drive, l2g, rails[k], before[base.len() + k]));
                            assert(after[base.len() + k] == before[base.len() + k]);
                        }
                    }
                }
            },
            None => {
                assert(more == rails);
            },
        }
        h = h + 1;
    }
    proof {
        let devices = cap.circuit.devices@;
        assert(devices.take(n_ids as int) =~= base.take(n_ids as int)) by {
            assert forall|k: int| 0 <= k < n_ids implies #[trigger] devices.take(n_ids as int)[k]
                == base.take(n_ids as int)[k] by {
                assert(devices.take(base.len() as int)[k] == base[k]);
            }
        }
        assert(is_extract(sub, ids@, &plain, ids@.len()));
        assert forall|k: int| 0 <= k < pins.len() implies #[trigger] is_candidate_pin(
            sub,
            drive,
            l2g,
            pins[k],
            devices[n_ids + k],
        ) by {
            assert(is_candidate_pin(sub, drive, l2g, pins[k], base[n_ids + k]));
            assert(devices.take(base.len() as int)[n_ids + k] == base[n_ids + k]);
        }
        let rails = pinned_held(drive.held@, l2g, drive.held@.len());
        assert forall|k: int| 0 <= k < rails.len() implies #[trigger] is_held_pin(
            sub,
            drive,
            l2g,
            rails[k],
            devices[n_ids + pins.len() + k],
        ) by {
            assert(is_held_pin(sub, drive, l2g, rails[k], devices[base.len() + k]));
        }
    }
    cap
}

} // verus!
