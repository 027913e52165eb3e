//! The slots that the outer loop writes: source pins and torn rails.
use std::collections::HashSet;

use vstd::prelude::*;

use crate::circuit::{Circuit, Device, DeviceId, NodeId};
use crate::orchestrate::tear::RailTear;
use crate::scalar::Scalar;

verus! {

broadcast use vstd::std_specs::hash::group_hash_axioms;

/// Whether a device pins the difference of two nodes, one of which is resolved.
pub open spec fn resolvable<S>(dev: Device<S>, resolved: Set<u32>) -> bool {
    match dev {
        Device::Vsource { p, n, .. } => resolved.contains(p.0) || resolved.contains(n.0),
        _ => false,
    }
}

/// The resolved nodes once a source has been applied.
pub open spec fn resolving<S>(dev: Device<S>, resolved: Set<u32>) -> Set<u32> {
    match dev {
        Device::Vsource { p, n, .. } => resolved.insert(p.0).insert(n.0),
        _ => resolved,
    }
}

/// The resolved nodes after listed sources, ground to begin with.
pub open spec fn resolved_by<S>(devices: Seq<Device<S>>, ids: Seq<DeviceId>, count: nat) -> Set<u32>
    decreases count,
{
    if count == 0 {
        set![0u32]
    } else {
        resolving(
            devices[ids[count - 1].0 as int],
            resolved_by(devices, ids, (count - 1) as nat),
        )
    }
}

/// One pass over the first `count` pending sources: those that can be resolved are
/// appended to the order, the others stay pending.
pub open spec fn pass<S>(
    devices: Seq<Device<S>>,
    pending: Seq<DeviceId>,
    order: Seq<DeviceId>,
    count: nat,
) -> (Seq<DeviceId>, Seq<DeviceId>)
    decreases count,
{
    if count == 0 {
        (order, Seq::empty())
    } else {
        let (done, rest) = pass(devices, pending, order, (count - 1) as nat);
        let id = pending[count - 1];
        if resolvable(devices[id.0 as int], resolved_by(devices, done, done.len())) {
            (done.push(id), rest)
        } else {
            (done, rest.push(id))
        }
    }
}

/// A pass moves sources from the pending ones to the order.
pub proof fn lemma_pass<S>(
    devices: Seq<Device<S>>,
    pending: Seq<DeviceId>,
    order: Seq<DeviceId>,
    count: nat,
)
    ensures
        ({
            let (done, rest) = pass(devices, pending, order, count);
            &&& done.len() + rest.len() == order.len() + count
            &&& done.len() >= order.len()
            &&& rest.len() <= count
        }),
    decreases count,
{
    if count > 0 {
        lemma_pass(devices, pending, order, (count - 1) as nat);
    }
}

/// Passes until one resolves nothing; what is then still pending comes last.
pub open spec fn ordered<S>(
    devices: Seq<Device<S>>,
    pending: Seq<DeviceId>,
    order: Seq<DeviceId>,
) -> Seq<DeviceId>
    decreases pending.len(),
{
    let (done, rest) = pass(devices, pending, order, pending.len());
    proof {
        lemma_pass(devices, pending, order, pending.len());
    }
    if done.len() == order.len() {
        done + rest
    } else {
        ordered(devices, rest, done)
    }
}

/// Whether the source at a position has a terminal that is ground or that an
/// earlier source pins.
pub open spec fn in_turn<S>(devices: Seq<Device<S>>, ids: Seq<DeviceId>, i: int) -> bool {
    resolvable(devices[ids[i].0 as int], resolved_by(devices, ids, i as nat))
}

proof fn lemma_resolved_prefix<S>(
    devices: Seq<Device<S>>,
    a: Seq<DeviceId>,
    b: Seq<DeviceId>,
    count: nat,
)
    requires
        count <= a.len(),
        count <= b.len(),
        forall|i: int| 0 <= i < count ==> #[trigger] a[i] == b[i],
    ensures
        resolved_by(devices, a, count) == resolved_by(devices, b, count),
    decreases count,
{
    if count > 0 {
        lemma_resolved_prefix(devices, a, b, (count - 1) as nat);
    }
}

proof fn lemma_pass_in_turn<S>(
    devices: Seq<Device<S>>,
    pending: Seq<DeviceId>,
    order: Seq<DeviceId>,
    count: nat,
)
    requires
        count <= pending.len(),
        forall|i: int| 0 <= i < order.len() ==> #[trigger] in_turn(devices, order, i),
    ensures
        ({
            let (done, rest) = pass(devices, pending, order, count);
            &&& forall|i: int| 0 <= i < done.len() ==> #[trigger] in_turn(devices, done, i)
            &&& (done + rest).to_multiset() == (order + pending.take(count as int)).to_multiset()
        }),
    decreases count,
{
    broadcast use vstd::seq_lib::group_to_multiset_ensures;

    if count == 0 {
        assert(order + Seq::<DeviceId>::empty() =~= order + pending.take(0));
    } else {
        let below = (count - 1) as nat;
        lemma_pass_in_turn(devices, pending, order, below);
        let (done0, rest0) = pass(devices, pending, order, below);
        let (done, rest) = pass(devices, pending, order, count);
        let id = pending[count - 1];
        assert(order + pending.take(count as int) =~= (order + pending.take(below as int)).push(
            id,
        ));
        let was = done0 + rest0;
        if resolvable(devices[id.0 as int], resolved_by(devices, done0, done0.len())) {
            assert forall|i: int| 0 <= i < done.len() implies #[trigger] in_turn(devices, done, i) by {
                lemma_resolved_prefix(devices, done, done0, i as nat);
                if i < done0.len() {
                    assert(in_turn(devices, done0, i));
                }
            }
            assert(done + rest =~= was.insert(done0.len() as int, id));
        } else {
            assert(done + rest =~= was.push(id));
        }
    }
}

/// Whether the first `k` sources are in turn and the others all float.
pub open spec fn turns_until<S>(devices: Seq<Device<S>>, ids: Seq<DeviceId>, k: nat) -> bool {
    &&& k <= ids.len()
    &&& forall|i: int| 0 <= i < k ==> #[trigger] in_turn(devices, ids, i)
    &&& forall|i: int|
        k <= i < ids.len() ==> !resolvable(
            devices[(#[trigger] ids[i]).0 as int],
            resolved_by(devices, ids, k),
        )
}

/// The order is a permutation of the sources. It begins with the sources that have
/// a terminal that is ground or that an earlier source pins; from the first that
/// has none, all are floating.
pub proof fn law_sources_are_in_turn<S>(
    devices: Seq<Device<S>>,
    pending: Seq<DeviceId>,
    order: Seq<DeviceId>,
)
    requires
        forall|i: int| 0 <= i < order.len() ==> #[trigger] in_turn(devices, order, i),
    ensures
        ordered(devices, pending, order).to_multiset() == (order + pending).to_multiset(),
        exists|k: nat| #[trigger] turns_until(devices, ordered(devices, pending, order), k),
    decreases pending.len(),
{
    let (done, rest) = pass(devices, pending, order, pending.len());
    lemma_pass(devices, pending, order, pending.len());
    lemma_pass_in_turn(devices, pending, order, pending.len());
    assert(pending.take(pending.len() as int) =~= pending);
    if done.len() == order.len() {
        lemma_pass_idle(devices, pending, order, pending.len());
        let r = done + rest;
        let k = done.len() as int;
        assert forall|i: int| 0 <= i < k implies #[trigger] in_turn(devices, r, i) by {
            assert(in_turn(devices, done, i));
            lemma_resolved_prefix(devices, r, done, i as nat);
        }
        assert forall|i: int| #![trigger r[i]] k <= i < r.len() implies !resolvable(
            devices[r[i].0 as int],
            resolved_by(devices, r, k as nat),
        ) by {
            lemma_resolved_prefix(devices, r, done, k as nat);
            assert(r[i] == rest[i - k]);
            assert(rest[i - k] == pending[i - k]);
        }
        assert(turns_until(devices, r, k as nat));
    } else {
        law_sources_are_in_turn(devices, rest, done);
    }
}

/// A pass that resolves nothing leaves everything pending.
proof fn lemma_pass_idle<S>(
    devices: Seq<Device<S>>,
    pending: Seq<DeviceId>,
    order: Seq<DeviceId>,
    count: nat,
)
    requires
        count <= pending.len(),
        pass(devices, pending, order, count).0.len() == order.len(),
    ensures
        pass(devices, pending, order, count).0 == order,
        pass(devices, pending, order, count).1 == pending.take(count as int),
        forall|i: int|
            0 <= i < count ==> !resolvable(
                devices[(#[trigger] pending[i]).0 as int],
                resolved_by(devices, order, order.len()),
            ),
    decreases count,
{
    if count == 0 {
        assert(pending.take(0) =~= Seq::<DeviceId>::empty());
    } else {
        let below = (count - 1) as nat;
        lemma_pass(devices, pending, order, below);
        lemma_pass_idle(devices, pending, order, below);
        assert(pending.take(count as int) =~= pending.take(below as int).push(pending[count - 1]));
    }
}

/// Order sources so that each is applied after the node it refers to is resolved.
pub fn order_sources<S: Scalar>(circuit: &Circuit<S>, sources: &Vec<DeviceId>) -> (r: Vec<DeviceId>)
    requires
        forall|k: int|
            0 <= k < sources@.len() ==> (#[trigger] sources@[k]).0 < circuit.devices@.len(),
    ensures
        r@ == ordered(circuit.devices@, sources@, Seq::empty()),
{
    let ghost devices = circuit.devices@;
    let mut resolved: HashSet<u32> = HashSet::new();
    resolved.insert(0);
    let mut out: Vec<DeviceId> = Vec::new();
    let mut pending: Vec<DeviceId> = crate::duplicate::copied_list(sources);
    assert(resolved@ =~= set![0u32]);
    loop
        invariant
            devices == circuit.devices@,
            forall|k: int| 0 <= k < pending@.len() ==> (#[trigger] pending@[k]).0 < devices.len(),
            resolved@ == resolved_by(devices, out@, out@.len()),
            ordered(devices, sources@, Seq::empty()) == ordered(devices, pending@, out@),
        decreases pending@.len(),
    {
        let before: usize = out.len();
        let ghost order = out@;
        let mut rest: Vec<DeviceId> = Vec::new();
        let mut k: usize = 0;
        while k < pending.len()
            invariant
                devices == circuit.devices@,
                k <= pending@.len(),
                forall|k: int|
                    0 <= k < pending@.len() ==> (#[trigger] pending@[k]).0 < devices.len(),
                forall|k: int| 0 <= k < rest@.len() ==> (#[trigger] rest@[k]).0 < devices.len(),
                resolved@ == resolved_by(devices, out@, out@.len()),
                pass(devices, pending@, order, k as nat) == (out@, rest@),
            decreases pending@.len() - k,
        {
            let id = pending[k];
            let ghost was = out@;
            let mut taken: bool = false;
            match &circuit.devices[id.0 as usize] {
                Device::Vsource { p, n, .. } => {
                    if resolved.contains(&p.0) || resolved.contains(&n.0) {
                        resolved.insert(p.0);
                        resolved.insert(n.0);
                        taken = true;
                    }
                },
                _ => {},
            }
            if taken {
                out.push(id);
                proof {
                    lemma_resolved_prefix(devices, out@, was, was.len());
                }
            } else {
                rest.push(id);
            }
            k = k + 1;
        }
        proof {
            lemma_pass(devices, pending@, order, pending@.len());
        }
        if out.len() == before {
            let mut j: usize = 0;
            let ghost done = out@;
            while j < rest.len()
                invariant
                    j <= rest@.len(),
                    out@ == done + rest@.take(j as int),
                decreases rest@.len() - j,
            {
                out.push(rest[j]);
                assert(rest@.take(j + 1) =~= rest@.take(j as int).push(rest@[j as int]));
                j = j + 1;
            }
            assert(rest@.take(j as int) =~= rest@);
            return out;
        }
        pending = rest;
    }
}

/// A node's slot, zero for ground.
pub open spec fn volt<S: Scalar>(buf: Seq<S>, n: NodeId) -> S {
    if n.0 == 0 {
        S::spec_zero()
    } else {
        buf[n.0 as int]
    }
}

pub fn volt_of<S: Scalar>(buf: &Vec<S>, n: NodeId) -> (r: S)
    requires
        n.0 < buf@.len(),
    ensures
        r == volt(buf@, n),
{
    if n.is_ground() {
        S::zero()
    } else {
        buf[n.0 as usize]
    }
}

/// The buffer with a source applied: the terminal that is not resolved yet takes
/// the value that makes the difference hold; where that does not say which, the
/// positive one, or the negative one where the positive one is ground.
pub open spec fn pinned<S: Scalar>(
    dev: Device<S>,
    value: S,
    resolved: Set<u32>,
    buf: Seq<S>,
) -> Seq<S> {
    match dev {
        Device::Vsource { p, n, .. } => if p.0 == 0 {
            if n.0 == 0 {
                buf
            } else {
                buf.update(n.0 as int, value.spec_negated())
            }
        } else if resolved.contains(p.0) && !resolved.contains(n.0) {
            buf.update(n.0 as int, volt(buf, p).spec_minus(value))
        } else {
            buf.update(p.0 as int, volt(buf, n).spec_plus(value))
        },
        _ => buf,
    }
}

/// The buffer with the first `count` listed sources applied in turn.
pub open spec fn pinned_by<S: Scalar>(
    devices: Seq<Device<S>>,
    ids: Seq<DeviceId>,
    values: Seq<S>,
    buf: Seq<S>,
    count: nat,
) -> Seq<S>
    decreases count,
{
    if count == 0 {
        buf
    } else {
        let below = (count - 1) as nat;
        let id = ids[count - 1].0 as int;
        pinned(
            devices[id],
            values[id],
            resolved_by(devices, ids, below),
            pinned_by(devices, ids, values, buf, below),
        )
    }
}

/// Apply ordered sources to the buffer, at the given value of every device.
pub fn apply_sources<S: Scalar>(
    circuit: &Circuit<S>,
    sources: &Vec<DeviceId>,
    values: &Vec<S>,
    buf: &mut Vec<S>,
)
    requires
        values@.len() == circuit.devices@.len(),
        forall|k: int|
            0 <= k < sources@.len() ==> (#[trigger] sources@[k]).0 < circuit.devices@.len(),
        forall|k: int, i: int|
            0 <= k < circuit.devices@.len() && 0 <= i < circuit.devices@[k].spec_nodes().len()
                ==> (#[trigger] circuit.devices@[k].spec_nodes()[i]).0 < old(buf)@.len(),
    ensures
        final(buf)@ == pinned_by(
            circuit.devices@,
            sources@,
            values@,
            old(buf)@,
            sources@.len(),
        ),
        final(buf)@.len() == old(buf)@.len(),
{
    let ghost start = buf@;
    let ghost devices = circuit.devices@;
    let mut resolved: HashSet<u32> = HashSet::new();
    resolved.insert(0);
    assert(resolved@ =~= set![0u32]);
    let mut k: usize = 0;
    while k < sources.len()
        invariant
            k <= sources@.len(),
            devices == circuit.devices@,
            values@.len() == devices.len(),
            forall|k: int| 0 <= k < sources@.len() ==> (#[trigger] sources@[k]).0 < devices.len(),
            forall|k: int, i: int|
                0 <= k < devices.len() && 0 <= i < devices[k].spec_nodes().len() ==> (
                #[trigger] devices[k].spec_nodes()[i]).0 < start.len(),
            buf@.len() == start.len(),
            resolved@ == resolved_by(devices, sources@, k as nat),
            buf@ == pinned_by(devices, sources@, values@, start, k as nat),
        decreases sources@.len() - k,
    {
        let id: usize = sources[k].0 as usize;
        let value = values[id];
        match &circuit.devices[id] {
            Device::Vsource { p, n, .. } => {
                let ghost dev = devices[id as int];
                assert(dev.spec_nodes()[0] == p && dev.spec_nodes()[1] == n);
                if p.is_ground() {
                    if !n.is_ground() {
                        buf[n.0 as usize] = value.negated();
                    }
                } else if resolved.contains(&p.0) && !resolved.contains(&n.0) {
                    let vp = volt_of(buf, *p);
                    buf[n.0 as usize] = vp.minus(value);
                } else {
                    let vn = volt_of(buf, *n);
                    buf[p.0 as usize] = vn.plus(value);
                }
                resolved.insert(p.0);
                resolved.insert(n.0);
            },
            _ => {},
        }
        k = k + 1;
    }
}

/// Whether a source resolves a node: exactly one of its terminals is resolved when
/// its turn comes.
pub open spec fn resolves_one<S>(devices: Seq<Device<S>>, ids: Seq<DeviceId>, i: int) -> bool {
    match devices[ids[i].0 as int] {
        Device::Vsource { p, n, .. } => resolved_by(devices, ids, i as nat).contains(p.0)
            != resolved_by(devices, ids, i as nat).contains(n.0),
        _ => false,
    }
}

/// Whether a source's difference holds in the buffer.
pub open spec fn pin_holds<S: Scalar>(dev: Device<S>, value: S, buf: Seq<S>) -> bool {
    match dev {
        Device::Vsource { p, n, .. } => volt(buf, p) == volt(buf, n).spec_plus(value),
        _ => true,
    }
}

proof fn lemma_ground_resolved<S>(devices: Seq<Device<S>>, ids: Seq<DeviceId>, count: nat)
    ensures
        resolved_by(devices, ids, count).contains(0),
    decreases count,
{
    if count > 0 {
        lemma_ground_resolved(devices, ids, (count - 1) as nat);
    }
}

/// Sources in turn, stacked or not, all hold at once: where the arithmetic is
/// exact and every source resolves one node, each source's difference is exact in
/// the buffer that applying them in turn leaves.
pub proof fn law_stacked_sources_hold<S: Scalar>(
    devices: Seq<Device<S>>,
    ids: Seq<DeviceId>,
    values: Seq<S>,
    buf: Seq<S>,
    count: nat,
)
    requires
        S::exact(),
        count <= ids.len(),
        forall|i: int| 0 <= i < ids.len() ==> (#[trigger] ids[i]).0 < devices.len(),
        forall|k: int, i: int|
            0 <= k < devices.len() && 0 <= i < devices[k].spec_nodes().len() ==> (
            #[trigger] devices[k].spec_nodes()[i]).0 < buf.len(),
        forall|i: int| 0 <= i < count ==> #[trigger] resolves_one(devices, ids, i),
    ensures
        forall|i: int|
            0 <= i < count ==> pin_holds(
                devices[(#[trigger] ids[i]).0 as int],
                values[ids[i].0 as int],
                pinned_by(devices, ids, values, buf, count),
            ),
        pinned_by(devices, ids, values, buf, count).len() == buf.len(),
    decreases count,
{
    if count > 0 {
        let below = (count - 1) as nat;
        law_stacked_sources_hold(devices, ids, values, buf, below);
        assert(resolves_one(devices, ids, below as int));
        let was = pinned_by(devices, ids, values, buf, below);
        let now = pinned_by(devices, ids, values, buf, count);
        let resolved = resolved_by(devices, ids, below);
        lemma_ground_resolved(devices, ids, below);
        let id = ids[below as int].0 as int;
        let dev = devices[id];
        let value = values[id];
        if let Device::Vsource { p, n, .. } = dev {
            assert(dev.spec_nodes()[0] == p && dev.spec_nodes()[1] == n);
            S::laws(value, S::spec_zero(), S::spec_zero());
            S::laws(value, value.spec_negated(), S::spec_zero());
            S::laws(volt(was, p), value, S::spec_zero());
            assert(p.0 != n.0);
            assert(pin_holds(dev, value, now));
            assert forall|m: u32| #[trigger] resolved.contains(m) && m < buf.len() implies volt(
                now,
                NodeId(m),
            ) == volt(was, NodeId(m)) by {}
        }
        assert forall|i: int| 0 <= i < count implies pin_holds(
            devices[(#[trigger] ids[i]).0 as int],
            values[ids[i].0 as int],
            now,
        ) by {
            if i < below {
                lemma_terminals_resolved(devices, ids, i, below);
                assert(pin_holds(devices[ids[i].0 as int], values[ids[i].0 as int], was));
                if let Device::Vsource { p, n, .. } = devices[ids[i].0 as int] {
                    let d = devices[ids[i].0 as int];
                    assert(d.spec_nodes()[0] == p && d.spec_nodes()[1] == n);
                    assert(resolved.contains(p.0) && resolved.contains(n.0));
                    assert(p == NodeId(p.0) && n == NodeId(n.0));
                }
            }
        }
    }
}

proof fn lemma_terminals_resolved<S>(
    devices: Seq<Device<S>>,
    ids: Seq<DeviceId>,
    i: int,
    count: nat,
)
    requires
        0 <= i < count <= ids.len(),
    ensures
        match devices[ids[i].0 as int] {
            Device::Vsource { p, n, .. } => resolved_by(devices, ids, count).contains(p.0)
                && resolved_by(devices, ids, count).contains(n.0),
            _ => true,
        },
    decreases count,
{
    if i < count - 1 {
        lemma_terminals_resolved(devices, ids, i, (count - 1) as nat);
    }
}

/// The buffer with the first `count` rails at the voltage of their feed, in turn.
pub open spec fn fed<S: Scalar>(tears: Seq<RailTear<S>>, buf: Seq<S>, count: nat) -> Seq<S>
    decreases count,
{
    if count == 0 {
        buf
    } else {
        let was = fed(tears, buf, (count - 1) as nat);
        was.update(tears[count - 1].rail.0 as int, volt(was, tears[count - 1].feed))
    }
}

/// The buffer after a number of rounds over all rails.
pub open spec fn fed_rounds<S: Scalar>(tears: Seq<RailTear<S>>, buf: Seq<S>, rounds: nat) -> Seq<S>
    decreases rounds,
{
    if rounds == 0 {
        buf
    } else {
        fed(tears, fed_rounds(tears, buf, (rounds - 1) as nat), tears.len())
    }
}

/// Start every torn rail at its feed's voltage. One round per rail lets a cascade
/// of rails settle from the source outward.
pub fn seed_rails<S: Scalar>(tears: &Vec<RailTear<S>>, buf: &mut Vec<S>)
    requires
        forall|k: int|
            0 <= k < tears@.len() ==> (#[trigger] tears@[k]).rail.0 < old(buf)@.len()
                && tears@[k].feed.0 < old(buf)@.len(),
    ensures
        final(buf)@ == fed_rounds(tears@, old(buf)@, tears@.len()),
        final(buf)@.len() == old(buf)@.len(),
{
    let ghost start = buf@;
    let mut round: usize = 0;
    while round < tears.len()
        invariant
            round <= tears@.len(),
            buf@.len() == start.len(),
            forall|k: int|
                0 <= k < tears@.len() ==> (#[trigger] tears@[k]).rail.0 < start.len()
                    && tears@[k].feed.0 < start.len(),
            buf@ == fed_rounds(tears@, start, round as nat),
        decreases tears@.len() - round,
    {
        let ghost began = buf@;
        let mut k: usize = 0;
        while k < tears.len()
            invariant
                k <= tears@.len(),
                buf@.len() == start.len(),
                forall|k: int|
                    0 <= k < tears@.len() ==> (#[trigger] tears@[k]).rail.0 < start.len()
                        && tears@[k].feed.0 < start.len(),
                buf@ == fed(tears@, began, k as nat),
            decreases tears@.len() - k,
        {
            let tear = tears[k];
            let v = volt_of(buf, tear.feed);
            buf[tear.rail.0 as usize] = v;
            k = k + 1;
        }
        round = round + 1;
    }
}

/// Whether `rank` orders a cascade: rails are distinct and not ground, and a rail
/// fed by another rail has the higher rank.
pub open spec fn cascades<S>(tears: Seq<RailTear<S>>, rank: Seq<nat>) -> bool {
    &&& rank.len() == tears.len()
    &&& forall|i: int| 0 <= i < tears.len() ==> (#[trigger] tears[i]).rail.0 != 0
    &&& forall|i: int, j: int|
        #![trigger tears[i].rail, tears[j].rail]
        0 <= i < j < tears.len() ==> tears[i].rail != tears[j].rail
    &&& forall|i: int| 0 <= i < tears.len() ==> #[trigger] rank[i] < tears.len()
    &&& forall|i: int, j: int|
        #![trigger tears[i].feed, tears[j].rail]
        0 <= i < tears.len() && 0 <= j < tears.len() && tears[i].feed == tears[j].rail ==> rank[j]
            < rank[i]
}

/// Whether every rail of rank below `limit`, among the first `count` where it has
/// rank `limit` itself, is at the voltage of its feed.
spec fn settled<S: Scalar>(
    tears: Seq<RailTear<S>>,
    rank: Seq<nat>,
    buf: Seq<S>,
    limit: nat,
    count: nat,
) -> bool {
    forall|i: int|
        0 <= i < tears.len() && (rank[i] < limit || rank[i] == limit && i < count) ==> volt(
            buf,
            (#[trigger] tears[i]).rail,
        ) == volt(buf, tears[i].feed)
}

proof fn lemma_round_settles<S: Scalar>(
    tears: Seq<RailTear<S>>,
    rank: Seq<nat>,
    buf: Seq<S>,
    limit: nat,
    count: nat,
)
    requires
        cascades(tears, rank),
        count <= tears.len(),
        forall|k: int|
            0 <= k < tears.len() ==> (#[trigger] tears[k]).rail.0 < buf.len() && tears[k].feed.0
                < buf.len(),
        settled(tears, rank, buf, limit, 0),
    ensures
        fed(tears, buf, count).len() == buf.len(),
        settled(tears, rank, fed(tears, buf, count), limit, count),
    decreases count,
{
    if count > 0 {
        let below = (count - 1) as nat;
        lemma_round_settles(tears, rank, buf, limit, below);
        let was = fed(tears, buf, below);
        let now = fed(tears, buf, count);
        let t = tears[below as int];
        assert forall|i: int|
            0 <= i < tears.len() && (rank[i] < limit || rank[i] == limit && i < count) implies volt(
            now,
            (#[trigger] tears[i]).rail,
        ) == volt(now, tears[i].feed) by {
            let u = tears[i];
            if i == below {
                assert(u.feed != u.rail) by {
                    if u.feed == u.rail {
                        assert(tears[i].feed == tears[i].rail);
                        assert(rank[i] < rank[i]);
                    }
                }
            } else {
                assert(volt(was, tears[i].rail) == volt(was, tears[i].feed));
                assert(u.rail != t.rail) by {
                    if i < below {
                        assert(tears[i].rail != tears[below as int].rail);
                    } else {
                        assert(tears[below as int].rail != tears[i].rail);
                    }
                }
                if u.feed == t.rail {
                    assert(tears[i].feed == tears[below as int].rail);
                    assert(rank[below as int] < rank[i]);
                    assert(rank[below as int] < limit);
                    assert(volt(was, tears[below as int].rail) == volt(
                        was,
                        tears[below as int].feed,
                    ));
                    assert(volt(now, u.feed) == volt(was, u.feed));
                }
            }
        }
    }
}

proof fn lemma_rounds_settle<S: Scalar>(
    tears: Seq<RailTear<S>>,
    rank: Seq<nat>,
    buf: Seq<S>,
    rounds: nat,
)
    requires
        cascades(tears, rank),
        forall|k: int|
            0 <= k < tears.len() ==> (#[trigger] tears[k]).rail.0 < buf.len() && tears[k].feed.0
                < buf.len(),
    ensures
        fed_rounds(tears, buf, rounds).len() == buf.len(),
        settled(tears, rank, fed_rounds(tears, buf, rounds), rounds, 0),
    decreases rounds,
{
    if rounds > 0 {
        let below = (rounds - 1) as nat;
        lemma_rounds_settle(tears, rank, buf, below);
        let was = fed_rounds(tears, buf, below);
        lemma_round_settles(tears, rank, was, below, tears.len());
        let now = fed_rounds(tears, buf, rounds);
        assert forall|i: int| 0 <= i < tears.len() && (rank[i] < rounds || rank[i] == rounds && i < 0)
            implies volt(now, (#[trigger] tears[i]).rail) == volt(now, tears[i].feed) by {
            assert(rank[i] < below || rank[i] == below && i < tears.len());
        }
    }
}

/// However rails feed each other, unless in a circle, every rail starts at the
/// voltage of its feed.
pub proof fn law_rails_start_at_their_feed<S: Scalar>(
    tears: Seq<RailTear<S>>,
    rank: Seq<nat>,
    buf: Seq<S>,
    i: int,
)
    requires
        cascades(tears, rank),
        forall|k: int|
            0 <= k < tears.len() ==> (#[trigger] tears[k]).rail.0 < buf.len() && tears[k].feed.0
                < buf.len(),
        0 <= i < tears.len(),
    ensures
        volt(fed_rounds(tears, buf, tears.len()), tears[i].rail) == volt(
            fed_rounds(tears, buf, tears.len()),
            tears[i].feed,
        ),
{
    lemma_rounds_settle(tears, rank, buf, tears.len());
    assert(rank[i] < tears.len());
}

/// The voltages of the nodes in turn, ground left out.
pub fn gather<S: Scalar>(buf: &Vec<S>) -> (r: Vec<S>)
    requires
        buf@.len() > 0,
    ensures
        r@ == buf@.skip(1),
{
    let mut out: Vec<S> = Vec::new();
    let mut i: usize = 1;
    while i < buf.len()
        invariant
            1 <= i <= buf@.len(),
            out@ == buf@.subrange(1, i as int),
        decreases buf@.len() - i,
    {
        out.push(buf[i]);
        assert(buf@.subrange(1, i + 1) =~= buf@.subrange(1, i as int).push(buf@[i as int]));
        i = i + 1;
    }
    assert(buf@.subrange(1, i as int) =~= buf@.skip(1));
    out
}

} // verus!
