//! One solve group: whether it may run, the circuit it solves, how its boundaries
//! are closed and in what order solves are attempted.
use std::collections::HashMap;

use vstd::prelude::*;

use crate::circuit::{Circuit, Device, DeviceId, NodeId, SourceKind};
use crate::duplicate::copied_list;
use crate::error::{ErrorView, SolveError};
use crate::options::{DcInit, RobustnessLadder, StepControl, Strategy};
use crate::orchestrate::capture::attempt::Death;
use crate::orchestrate::capture::circuit::is_pin;
use crate::orchestrate::ramp::{next_rung, rung};
use crate::orchestrate::staged::certificate::TearCertificate;
use crate::orchestrate::staged::dag::StageDag;
use crate::orchestrate::tear::RailTear;
use crate::scalar::Scalar;
use crate::subcircuit::{
    extract, extracted, interned, local_id, mentions, node_list, unclaimed, SubCircuit,
};

verus! {

broadcast use vstd::std_specs::hash::group_hash_axioms;

/// The names of the first `count` nodes, separated by commas.
pub open spec fn name_list(names: Seq<Seq<char>>, nodes: Seq<NodeId>, count: nat) -> Seq<char>
    decreases count,
{
    if count == 0 {
        Seq::empty()
    } else {
        let own = names[nodes[count - 1].0 as int];
        if count == 1 {
            own
        } else {
            name_list(names, nodes, (count - 1) as nat) + ", "@ + own
        }
    }
}

fn list_names<S: Scalar>(circuit: &Circuit<S>, nodes: &Vec<NodeId>) -> (r: String)
    requires
        forall|i: int|
            0 <= i < nodes@.len() ==> (#[trigger] nodes@[i]).0 < circuit.node_names().len(),
    ensures
        r@ == name_list(circuit.node_names(), nodes@, nodes@.len()),
{
    let mut out: String = String::from_str("");
    proof {
        reveal_strlit("");
        assert(out@ =~= Seq::<char>::empty());
    }
    let mut i: usize = 0;
    while i < nodes.len()
        invariant
            i <= nodes@.len(),
            forall|i: int|
                0 <= i < nodes@.len() ==> (#[trigger] nodes@[i]).0 < circuit.node_names().len(),
            out@ == name_list(circuit.node_names(), nodes@, i as nat),
        decreases nodes@.len() - i,
    {
        assert(nodes@[i as int].0 < circuit.node_names().len());
        if i > 0 {
            out.append(", ");
        }
        let ghost before = out@;
        out.append(circuit.node_name(nodes[i]));
        proof {
            if i == 0 {
                assert(out@ =~= circuit.node_names()[nodes@[0].0 as int]);
            }
        }
        i = i + 1;
    }
    out
}

/// Whether a decomposition may be executed in stages, and on which step. An unsound
/// one is refused with its summary; one with boundaries that the environment should
/// drive is refused by their names, since this executor cannot drive them; and one
/// without a fixed step is refused, since it has no grid to state an error on.
pub fn clear_to_run<S: Scalar>(
    circuit: &Circuit<S>,
    certificate: &TearCertificate<S>,
    summary: &str,
    step: StepControl<S>,
) -> (r: Result<S, SolveError>)
    requires
        forall|i: int|
            0 <= i < certificate.exogenous_boundaries@.len() ==> (
            #[trigger] certificate.exogenous_boundaries@[i]).0 < circuit.node_names().len(),
    ensures
        ({
            let driven = certificate.exogenous_boundaries@;
            if !certificate.sound {
                r matches Err(e) && e@ == ErrorView::Refused(
                    "staged execution refused: the decomposition is unsound\n"@ + summary@,
                )
            } else if driven.len() > 0 {
                r matches Err(e) && e@ == ErrorView::Refused(
                    "staged execution refused: exogenous boundaries ["@ + name_list(
                        circuit.node_names(),
                        driven,
                        driven.len(),
                    )
                        + "] are certified as environment-driven, and this executor cannot drive them yet; run co-simulated or monolithic"@,
                )
            } else {
                match step {
                    StepControl::Fixed { dt } => r == Ok::<S, SolveError>(dt),
                    StepControl::Adaptive { .. } => r matches Err(e) && e@ == ErrorView::Refused(
                        "staged execution requires fixed step control: the capture grid is the step grid, and an adaptive run has no grid whose error the certificate could state"@,
                    ),
                }
            }
        }),
{
    if !certificate.sound {
        let mut m: String = String::from_str(
            "staged execution refused: the decomposition is unsound\n",
        );
        m.append(summary);
        return Err(SolveError::Refused(m));
    }
    if certificate.exogenous_boundaries.len() > 0 {
        let mut m: String = String::from_str("staged execution refused: exogenous boundaries [");
        let names: String = list_names(circuit, &certificate.exogenous_boundaries);
        m.append(names.as_str());
        m.append(
            "] are certified as environment-driven, and this executor cannot drive them yet; run co-simulated or monolithic",
        );
        return Err(SolveError::Refused(m));
    }
    match step {
        StepControl::Fixed { dt } => Ok(dt),
        StepControl::Adaptive { .. } => Err(
            SolveError::Refused(
                String::from_str(
                    "staged execution requires fixed step control: the capture grid is the step grid, and an adaptive run has no grid whose error the certificate could state",
                ),
            ),
        ),
    }
}

/// The nodes of an extract, then the first `count` replayed nodes.
pub open spec fn replay_list<S: Scalar>(
    circuit: &Circuit<S>,
    ids: Seq<DeviceId>,
    replay: Seq<(NodeId, Vec<(S, S)>)>,
    count: nat,
) -> Seq<NodeId>
    decreases count,
{
    if count == 0 {
        node_list(circuit, ids, ids.len())
    } else {
        interned(replay_list(circuit, ids, replay, (count - 1) as nat), replay[count - 1].0)
    }
}

/// Whether a device replays a waveform at a node.
pub open spec fn is_replay<S: Scalar>(
    circuit: &Circuit<S>,
    pin: (NodeId, Vec<(S, S)>),
    l2g: Seq<NodeId>,
    dev: Device<S>,
) -> bool {
    is_pin(
        dev,
        "VREPLAY_"@ + circuit.node_names()[pin.0.0 as int],
        local_id(l2g, pin.0),
        |kind: SourceKind<S>| kind matches SourceKind::Pwl(p) && p@ == pin.1@,
    )
}

/// Whether a sub-circuit is a solve group: the listed devices, then a source for
/// every replayed node.
pub open spec fn is_group<S: Scalar>(
    circuit: &Circuit<S>,
    ids: Seq<DeviceId>,
    replay: Seq<(NodeId, Vec<(S, S)>)>,
    sub: &SubCircuit<S>,
    count: nat,
) -> bool {
    let devices = sub.circuit.devices@;
    &&& sub.wf(circuit)
    &&& sub.circuit.temp_c == circuit.temp_c
    &&& sub.l2g@ == replay_list(circuit, ids, replay, count)
    &&& devices.len() == ids.len() + count
    &&& extracted(
        circuit,
        ids,
        node_list(circuit, ids, ids.len()),
        devices.take(ids.len() as int),
        ids.len(),
    )
    &&& forall|k: int|
        0 <= k < count ==> #[trigger] is_replay(
            circuit,
            replay[k],
            sub.l2g@,
            devices[ids.len() + k],
        )
}

/// The listed devices as a circuit of their own, with a piecewise-linear source at
/// every replayed node.
pub fn extract_subcircuit<S: Scalar>(
    circuit: &Circuit<S>,
    ids: &Vec<DeviceId>,
    replay: &Vec<(NodeId, Vec<(S, S)>)>,
) -> (r: SubCircuit<S>)
    requires
        circuit.wf(),
        unclaimed(circuit.node_names()),
        forall|k: int| 0 <= k < ids@.len() ==> (#[trigger] ids@[k]).0 < circuit.devices@.len(),
        ids@.len() + replay@.len() <= u32::MAX,
        1 + mentions(circuit, ids@, ids@.len()) + replay@.len() <= u32::MAX,
        forall|k: int|
            0 <= k < replay@.len() ==> (#[trigger] replay@[k]).0.0 < circuit.node_names().len(),
    ensures
        is_group(circuit, ids@, replay@, &r, replay@.len()),
{
    let mut sub: SubCircuit<S> = extract(circuit, ids);
    proof {
        crate::subcircuit::lemma_ground_listed(circuit, ids@, ids@.len());
        assert(sub.circuit.devices@.take(ids@.len() as int) =~= sub.circuit.devices@);
    }
    let mut i: usize = 0;
    while i < replay.len()
        invariant
            i <= replay@.len(),
            ids@.len() + replay@.len() <= u32::MAX,
            1 + mentions(circuit, ids@, ids@.len()) + replay@.len() <= u32::MAX,
            forall|k: int|
                0 <= k < replay@.len() ==> (#[trigger] replay@[k]).0.0
                    < circuit.node_names().len(),
            is_group(circuit, ids@, replay@, &sub, i as nat),
            sub.l2g@.len() <= 1 + mentions(circuit, ids@, ids@.len()) + i,
        decreases replay@.len() - i,
    {
        let ghost before = sub;
        assert(replay@[i as int].0.0 < circuit.node_names().len());
        let gn = replay[i].0;
        let ln = sub.map(circuit, gn);
        let ghost mid = sub;
        let mut name: String = String::from_str("VREPLAY_");
        name.append(circuit.node_name(gn));
        let pin = Device::Vsource {
            name,
            p: ln,
            n: NodeId::ground(),
            kind: SourceKind::Pwl(copied_list(&replay[i].1)),
        };
        let added = sub.add(circuit, pin);
        proof {
            let had = before.circuit.devices@;
            let now = sub.circuit.devices@;
            assert(now.take(ids@.len() as int) =~= had.take(ids@.len() as int));
            assert forall|k: int| 0 <= k < i + 1 implies #[trigger] is_replay(
                circuit,
                replay@[k],
                sub.l2g@,
                now[ids@.len() + k],
            ) by {
                if k < i {
                    assert(is_replay(
                        circuit,
                        replay@[k],
                        before.l2g@,
                        had[ids@.len() + k],
                    ));
                    assert(now[ids@.len() + k] == had[ids@.len() + k]);
                    lemma_replayed_listed(circuit, ids@, replay@, i as nat, k);
                    let at = choose|at: int|
                        0 <= at < before.l2g@.len() && before.l2g@[at] == replay@[k].0;
                    crate::subcircuit::lemma_index_of(before.l2g@, at);
                    assert(sub.l2g@[at] == before.l2g@[at]);
                    crate::subcircuit::lemma_index_of(sub.l2g@, at);
                }
            }
        }
        i = i + 1;
    }
    sub
}

proof fn lemma_replayed_listed<S: Scalar>(
    circuit: &Circuit<S>,
    ids: Seq<DeviceId>,
    replay: Seq<(NodeId, Vec<(S, S)>)>,
    count: nat,
    k: int,
)
    requires
        0 <= k < count <= replay.len(),
    ensures
        replay_list(circuit, ids, replay, count).contains(NodeId(0)),
        replay_list(circuit, ids, replay, count).contains(replay[k].0),
    decreases count,
{
    lemma_ground_replayed(circuit, ids, replay, (count - 1) as nat);
    lemma_ground_replayed(circuit, ids, replay, count);
    let before = replay_list(circuit, ids, replay, (count - 1) as nat);
    let after = replay_list(circuit, ids, replay, count);
    if k == count - 1 {
        if replay[k].0.0 == 0 {
            assert(replay[k].0 == NodeId(0));
        } else if !before.contains(replay[k].0) {
            assert(after[before.len() as int] == replay[k].0);
        }
    } else {
        lemma_replayed_listed(circuit, ids, replay, (count - 1) as nat, k);
        let at = choose|at: int| 0 <= at < before.len() && before[at] == replay[k].0;
        assert(after[at] == replay[k].0);
    }
}

proof fn lemma_ground_replayed<S: Scalar>(
    circuit: &Circuit<S>,
    ids: Seq<DeviceId>,
    replay: Seq<(NodeId, Vec<(S, S)>)>,
    count: nat,
)
    requires
        count <= replay.len(),
    ensures
        replay_list(circuit, ids, replay, count).len() > 0,
        replay_list(circuit, ids, replay, count)[0] == NodeId(0),
        replay_list(circuit, ids, replay, count).contains(NodeId(0)),
    decreases count,
{
    if count == 0 {
        crate::subcircuit::lemma_ground_listed(circuit, ids, ids.len());
    } else {
        lemma_ground_replayed(circuit, ids, replay, (count - 1) as nat);
    }
    assert(replay_list(circuit, ids, replay, count)[0] == NodeId(0));
}

/// A rail that analysis considered for balance.
#[derive(Debug, Clone, Copy)]
pub struct BalanceTearCandidate<S> {
    pub rail: NodeId,
    pub feed: NodeId,
    pub shunt: DeviceId,
    pub shunt_ohms: S,
    /// Whether analysis decided to tear it.
    pub torn: bool,
}

/// The first position of a device in a list, from `from` on.
pub open spec fn device_position(ids: Seq<DeviceId>, id: DeviceId, from: int) -> Option<int>
    decreases ids.len() - from,
{
    if from >= ids.len() {
        None
    } else if ids[from] == id {
        Some(from)
    } else {
        device_position(ids, id, from + 1)
    }
}

fn position_of(ids: &Vec<DeviceId>, id: DeviceId) -> (r: Option<usize>)
    ensures
        match device_position(ids@, id, 0) {
            Some(k) => r matches Some(x) && x == k && x < ids@.len(),
            None => r is None,
        },
{
    let mut i: usize = 0;
    while i < ids.len()
        invariant
            i <= ids@.len(),
            device_position(ids@, id, 0) == device_position(ids@, id, i as int),
        decreases ids@.len() - i,
    {
        if ids[i] == id {
            return Some(i);
        }
        i = i + 1;
    }
    None
}

/// A tear in the local numbers of a group, where the group holds all of it.
pub open spec fn remapped<S>(
    c: BalanceTearCandidate<S>,
    ids: Seq<DeviceId>,
    g2l: Map<u32, u32>,
) -> Option<RailTear<S>> {
    match device_position(ids, c.shunt, 0) {
        Some(k) => if g2l.dom().contains(c.rail.0) && g2l.dom().contains(c.feed.0) {
            Some(
                RailTear {
                    rail: NodeId(g2l[c.rail.0]),
                    feed: NodeId(g2l[c.feed.0]),
                    shunt: DeviceId(k as u32),
                    r_shunt: c.shunt_ohms,
                },
            )
        } else {
            None
        },
        None => None,
    }
}

/// A tear in the local numbers of a group; none where the group only senses the
/// rail. Local device numbers are positions in the group's list.
pub fn remap_tear<S: Scalar>(
    c: &BalanceTearCandidate<S>,
    ids: &Vec<DeviceId>,
    g2l: &HashMap<u32, u32>,
) -> (r: Option<RailTear<S>>)
    requires
        ids@.len() <= u32::MAX,
    ensures
        r == remapped(*c, ids@, g2l@),
{
    let rail: u32 = match g2l.get(&c.rail.0) {
        Some(n) => *n,
        None => {
            return None;
        },
    };
    let feed: u32 = match g2l.get(&c.feed.0) {
        Some(n) => *n,
        None => {
            return None;
        },
    };
    match position_of(ids, c.shunt) {
        Some(k) => Some(
            RailTear {
                rail: NodeId(rail),
                feed: NodeId(feed),
                shunt: DeviceId(k as u32),
                r_shunt: c.shunt_ohms,
            },
        ),
        None => None,
    }
}

/// The accepted tears, among the first `count`, of the rails that a group conducts.
pub open spec fn imposed_tears<S>(
    dag: &StageDag,
    tears: Seq<BalanceTearCandidate<S>>,
    g: int,
    ids: Seq<DeviceId>,
    g2l: Map<u32, u32>,
    count: nat,
) -> Seq<RailTear<S>>
    decreases count,
{
    if count == 0 {
        Seq::empty()
    } else {
        let rest = imposed_tears(dag, tears, g, ids, g2l, (count - 1) as nat);
        let c = tears[count - 1];
        match remapped(c, ids, g2l) {
            Some(t) => if c.torn && dag.owner(c.rail) == Some(g) {
                rest.push(t)
            } else {
                rest
            },
            None => rest,
        }
    }
}

/// The accepted tears of the rails that a group conducts, in its local numbers.
pub fn imposed<S: Scalar>(
    dag: &StageDag,
    tears: &Vec<BalanceTearCandidate<S>>,
    g: usize,
    ids: &Vec<DeviceId>,
    g2l: &HashMap<u32, u32>,
) -> (r: Vec<RailTear<S>>)
    requires
        ids@.len() <= u32::MAX,
    ensures
        r@ == imposed_tears(dag, tears@, g as int, ids@, g2l@, tears@.len()),
{
    let mut out: Vec<RailTear<S>> = Vec::new();
    let mut i: usize = 0;
    while i < tears.len()
        invariant
            i <= tears@.len(),
            ids@.len() <= u32::MAX,
            out@ == imposed_tears(dag, tears@, g as int, ids@, g2l@, i as nat),
        decreases tears@.len() - i,
    {
        let c = tears[i];
        let own: bool = match dag.group_of_node(c.rail) {
            Some(x) => x == g,
            None => false,
        };
        match remap_tear(&c, ids, g2l) {
            Some(t) => {
                if c.torn && own {
                    out.push(t);
                }
            },
            None => {},
        }
        i = i + 1;
    }
    out
}

/// The first candidate of a rail, from `from` on.
pub open spec fn candidate_of<S>(
    tears: Seq<BalanceTearCandidate<S>>,
    rail: NodeId,
    from: int,
) -> Option<int>
    decreases tears.len() - from,
{
    if from >= tears.len() {
        None
    } else if tears[from].rail == rail {
        Some(from)
    } else {
        candidate_of(tears, rail, from + 1)
    }
}

/// A stiff node as a rail: any balance candidate is one, whatever was decided.
pub open spec fn as_rail<S>(
    tears: Seq<BalanceTearCandidate<S>>,
    n: NodeId,
    ids: Seq<DeviceId>,
    g2l: Map<u32, u32>,
) -> Option<RailTear<S>> {
    match candidate_of(tears, n, 0) {
        Some(k) => remapped(tears[k], ids, g2l),
        None => None,
    }
}

fn to_rail<S: Scalar>(
    tears: &Vec<BalanceTearCandidate<S>>,
    n: NodeId,
    ids: &Vec<DeviceId>,
    g2l: &HashMap<u32, u32>,
) -> (r: Option<RailTear<S>>)
    requires
        ids@.len() <= u32::MAX,
    ensures
        r == as_rail(tears@, n, ids@, g2l@),
{
    let mut i: usize = 0;
    while i < tears.len()
        invariant
            i <= tears@.len(),
            ids@.len() <= u32::MAX,
            candidate_of(tears@, n, 0) == candidate_of(tears@, n, i as int),
        decreases tears@.len() - i,
    {
        if tears[i].rail == n {
            return remap_tear(&tears[i], ids, g2l);
        }
        i = i + 1;
    }
    None
}

/// The stiff nodes of a group among the first `count`: signals to relax, and rails
/// to compose.
pub open spec fn routed<S>(
    dag: &StageDag,
    stiff: Seq<NodeId>,
    tears: Seq<BalanceTearCandidate<S>>,
    g: int,
    ids: Seq<DeviceId>,
    g2l: Map<u32, u32>,
    count: nat,
) -> (Seq<NodeId>, Seq<RailTear<S>>)
    decreases count,
{
    if count == 0 {
        (Seq::empty(), Seq::empty())
    } else {
        let (signals, rails) = routed(dag, stiff, tears, g, ids, g2l, (count - 1) as nat);
        let n = stiff[count - 1];
        if dag.owner(n) == Some(g) && g2l.dom().contains(n.0) {
            match as_rail(tears, n, ids, g2l) {
                Some(t) => (signals, rails.push(t)),
                None => (signals.push(NodeId(g2l[n.0])), rails),
            }
        } else {
            (signals, rails)
        }
    }
}

/// Split a group's stiff nodes into signals to relax and rails to compose, both in
/// local numbers.
pub fn route<S: Scalar>(
    dag: &StageDag,
    stiff: &Vec<NodeId>,
    tears: &Vec<BalanceTearCandidate<S>>,
    g: usize,
    ids: &Vec<DeviceId>,
    g2l: &HashMap<u32, u32>,
) -> (r: (Vec<NodeId>, Vec<RailTear<S>>))
    requires
        ids@.len() <= u32::MAX,
    ensures
        (r.0@, r.1@) == routed(dag, stiff@, tears@, g as int, ids@, g2l@, stiff@.len()),
{
    let mut signals: Vec<NodeId> = Vec::new();
    let mut rails: Vec<RailTear<S>> = Vec::new();
    let mut i: usize = 0;
    while i < stiff.len()
        invariant
            i <= stiff@.len(),
            ids@.len() <= u32::MAX,
            (signals@, rails@) == routed(dag, stiff@, tears@, g as int, ids@, g2l@, i as nat),
        decreases stiff@.len() - i,
    {
        let n = stiff[i];
        let own: bool = match dag.group_of_node(n) {
            Some(x) => x == g,
            None => false,
        };
        if own {
            match g2l.get(&n.0) {
                Some(ln) => {
                    let local: u32 = *ln;
                    match to_rail(tears, n, ids, g2l) {
                        Some(t) => {
                            rails.push(t);
                        },
                        None => {
                            signals.push(NodeId(local));
                        },
                    }
                },
                None => {},
            }
        }
        i = i + 1;
    }
    (signals, rails)
}

/// How a group is closed.
#[derive(Debug, Clone, Copy, PartialEq, Eq, Structural)]
pub enum Route {
    /// Its rails composed with its signals.
    Composed,
    /// Its signals relaxed.
    Stiff,
    /// Solved directly, torn at its imposed rails or whole.
    Direct,
}

/// A group with rails among its stiff nodes is composed, one with signals alone is
/// relaxed; a group that is torn at imposed rails is left to its own exact path.
pub fn choose_route(imposed: usize, rails: usize, signals: usize) -> (r: Route)
    ensures
        r == (if imposed == 0 && rails > 0 {
            Route::Composed
        } else if imposed == 0 && signals > 0 {
            Route::Stiff
        } else {
            Route::Direct
        }),
{
    if imposed == 0 && rails > 0 {
        Route::Composed
    } else if imposed == 0 && signals > 0 {
        Route::Stiff
    } else {
        Route::Direct
    }
}

/// Whether a circuit has a device that decides on events.
pub open spec fn has_discrete<S>(devices: Seq<Device<S>>, count: int) -> bool {
    exists|d: int|
        0 <= d < count && (#[trigger] devices[d] is Comparator || devices[d] is VSwitch)
}

/// Whether every device is linear.
pub open spec fn all_linear<S>(devices: Seq<Device<S>>, count: int) -> bool {
    forall|d: int| 0 <= d < count ==> (#[trigger] devices[d]).spec_is_linear()
}

/// A group's rescues: the caller's, without those that could not fire on it. Events
/// cannot be frozen where nothing decides on them, and a linear group is solved
/// before a line search could begin.
pub fn select_group_ladder<S: Scalar>(
    sub: &Circuit<S>,
    caller: &RobustnessLadder,
) -> (r: RobustnessLadder)
    ensures
        forall|s: Strategy| #[trigger]
            r.granted(s) == (caller.granted(s) && match s {
                Strategy::EventFreeze => has_discrete(sub.devices@, sub.devices@.len() as int),
                Strategy::LineSearch => !all_linear(sub.devices@, sub.devices@.len() as int),
                _ => true,
            }),
{
    let mut discrete: bool = false;
    let mut linear: bool = true;
    let mut d: usize = 0;
    while d < sub.devices.len()
        invariant
            d <= sub.devices@.len(),
            discrete == has_discrete(sub.devices@, d as int),
            linear == all_linear(sub.devices@, d as int),
        decreases sub.devices@.len() - d,
    {
        let decides: bool = match &sub.devices[d] {
            Device::Comparator { .. } => true,
            Device::VSwitch { .. } => true,
            _ => false,
        };
        proof {
            if discrete {
                let k = choose|k: int|
                    0 <= k < d && (#[trigger] sub.devices@[k] is Comparator
                        || sub.devices@[k] is VSwitch);
                assert(sub.devices@[k] is Comparator || sub.devices@[k] is VSwitch);
            }
            if decides {
                assert(sub.devices@[d as int] is Comparator || sub.devices@[d as int] is VSwitch);
            }
        }
        discrete = discrete || decides;
        linear = linear && sub.devices[d].is_linear();
        d = d + 1;
    }
    let mut out = *caller;
    if !discrete {
        out = out.without(Strategy::EventFreeze);
    }
    if linear {
        out = out.without(Strategy::LineSearch);
    }
    out
}

/// One way to solve a group.
#[derive(Clone, Copy, Debug)]
pub enum GroupAttempt<S> {
    /// Torn at its imposed rails.
    Torn,
    /// Whole.
    Fused,
    /// Whole, from zero, under the ramp of a rung.
    Ramp { rung: usize, window: S },
}

/// The attempt that follows a death, if any does. A torn solve that dies is solved
/// whole; a whole one that died at its operating point is powered on, unless the
/// caller asked for a start at zero.
pub open spec fn group_following<S: Scalar>(
    dt: S,
    tstop: S,
    init: DcInit,
    last: GroupAttempt<S>,
    death: Death,
) -> Option<GroupAttempt<S>> {
    let ladder = |from: int|
        match rung(dt, tstop, from) {
            Some((i, window)) => Some(GroupAttempt::Ramp { rung: i as usize, window }),
            None => None,
        };
    match last {
        GroupAttempt::Torn => Some(GroupAttempt::Fused),
        GroupAttempt::Fused => if init == DcInit::Solve && death == Death::AtOperatingPoint {
            ladder(0)
        } else {
            None
        },
        GroupAttempt::Ramp { rung, .. } => ladder(rung + 1),
    }
}

pub fn first_group_attempt<S: Scalar>(imposed: usize) -> (r: GroupAttempt<S>)
    ensures
        imposed > 0 ==> r is Torn,
        imposed == 0 ==> r is Fused,
{
    if imposed > 0 {
        GroupAttempt::Torn
    } else {
        GroupAttempt::Fused
    }
}

pub fn next_group_attempt<S: Scalar>(
    dt: S,
    tstop: S,
    init: DcInit,
    last: GroupAttempt<S>,
    death: Death,
) -> (r: Option<GroupAttempt<S>>)
    requires
        last matches GroupAttempt::Ramp { rung, .. } ==> rung < 3,
    ensures
        r == group_following(dt, tstop, init, last, death),
{
    let from: usize = match last {
        GroupAttempt::Torn => {
            return Some(GroupAttempt::Fused);
        },
        GroupAttempt::Fused => {
            if init != DcInit::Solve || death != Death::AtOperatingPoint {
                return None;
            }
            0
        },
        GroupAttempt::Ramp { rung, .. } => rung + 1,
    };
    match next_rung(dt, tstop, from) {
        Some(x) => Some(GroupAttempt::Ramp { rung: x.0, window: x.1 }),
        None => None,
    }
}

/// The names of the first `count` devices, separated by commas.
pub open spec fn device_names<S>(devices: Seq<Device<S>>, count: nat) -> Seq<char>
    decreases count,
{
    if count == 0 {
        Seq::empty()
    } else {
        let own = devices[count - 1].spec_name();
        if count == 1 {
            own
        } else {
            device_names(devices, (count - 1) as nat) + ", "@ + own
        }
    }
}

/// How many devices a message names.
pub open spec fn sample_size(devices: nat) -> nat {
    if devices < 6 {
        devices
    } else {
        6
    }
}

/// The first few device names of a group, enough to recognize it.
pub fn sample_names<S: Scalar>(sub: &Circuit<S>) -> (r: Vec<String>)
    ensures
        r@.len() == sample_size(sub.devices@.len()),
        forall|i: int|
            0 <= i < r@.len() ==> (#[trigger] r@[i])@ == sub.devices@[i].spec_name(),
{
    let total: usize = if sub.devices.len() < 6 {
        sub.devices.len()
    } else {
        6
    };
    let mut out: Vec<String> = Vec::new();
    let mut i: usize = 0;
    while i < total
        invariant
            i <= total <= sub.devices@.len(),
            out@.len() == i,
            forall|k: int|
                0 <= k < i ==> (#[trigger] out@[k])@ == sub.devices@[k].spec_name(),
        decreases total - i,
    {
        out.push(String::from_str(sub.devices[i].name()));
        i = i + 1;
    }
    out
}

/// What is added to a failure after a refused relaxation, so that the refusal which
/// led to the failed solve is not lost.
pub open spec fn refusal_suffix(note: Seq<char>) -> Seq<char> {
    if note.len() == 0 {
        Seq::empty()
    } else {
        " [stiff relaxation refused first: "@ + note + "]"@
    }
}

/// The message of a failed solve with that of a failed power-on retry after it.
pub fn retry_failure(errors: &str, window: &str, cause: &str) -> (r: String)
    ensures
        r@ == errors@ + "; power-ramp retry (window "@ + window@ + "s) also failed: "@ + cause@,
{
    let mut text = String::from_str(errors);
    text.append("; power-ramp retry (window ");
    text.append(window);
    text.append("s) also failed: ");
    text.append(cause);
    text
}

/// The message of a group whose solve failed.
pub fn group_failure<S: Scalar>(
    g: usize,
    sub: &Circuit<S>,
    refusal: &str,
    cause: &str,
) -> (r: String)
    ensures
        r@ == "staged group "@ + crate::text::decimal_digits(g as nat) + " failed ("@
            + crate::text::decimal_digits(sub.devices@.len()) + " devices; sample: "@
            + device_names(sub.devices@, sample_size(sub.devices@.len())) + ")"@ + refusal_suffix(
            refusal@,
        ) + ": "@ + cause@,
{
    let mut m: String = String::from_str("staged group ");
    let digits: String = crate::text::decimal(g);
    m.append(digits.as_str());
    m.append(" failed (");
    let count: String = crate::text::decimal(sub.devices.len());
    m.append(count.as_str());
    m.append(" devices; sample: ");
    let total: usize = if sub.devices.len() < 6 {
        sub.devices.len()
    } else {
        6
    };
    let ghost head = m@;
    let mut i: usize = 0;
    proof {
        assert(m@ =~= head + device_names(sub.devices@, 0));
    }
    while i < total
        invariant
            i <= total <= sub.devices@.len(),
            m@ == head + device_names(sub.devices@, i as nat),
        decreases total - i,
    {
        if i > 0 {
            m.append(", ");
        }
        m.append(sub.devices[i].name());
        proof {
            assert(m@ =~= head + device_names(sub.devices@, (i + 1) as nat));
        }
        i = i + 1;
    }
    m.append(")");
    let ghost so_far = m@;
    if refusal.unicode_len() > 0 {
        m.append(" [stiff relaxation refused first: ");
        m.append(refusal);
        m.append("]");
    }
    proof {
        assert(m@ =~= so_far + refusal_suffix(refusal@));
    }
    m.append(": ");
    m.append(cause);
    proof {
        assert(m@ =~= "staged group "@ + crate::text::decimal_digits(g as nat) + " failed ("@
            + crate::text::decimal_digits(sub.devices@.len()) + " devices; sample: "@
            + device_names(sub.devices@, sample_size(sub.devices@.len())) + ")"@ + refusal_suffix(
            refusal@,
        ) + ": "@ + cause@);
    }
    m
}

} // verus!
