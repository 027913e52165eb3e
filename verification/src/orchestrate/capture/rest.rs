//! Where a relaxation starts: rest values, rail seeds, and the group with its
//! signals pinned.
use vstd::prelude::*;

use crate::circuit::{Circuit, Device, NodeId};
use crate::duplicate::same_device;
use crate::orchestrate::capture::circuit::{points, train_source};
use crate::orchestrate::capture::composed::{
    cascade_seeds, cascaded, driven_from, feed_source_value,
};
use crate::orchestrate::tear::RailTear;
use crate::partitioned::reactive::{node_v, node_volt};
use crate::scalar::Scalar;
use crate::subcircuit::{local_id, SubCircuit};
use crate::system::Layout;

verus! {

/// The voltage of every node at an operating point, by node number.
pub fn point_voltages<S: Scalar>(circuit: &Circuit<S>, layout: &Layout<S>, x: &Vec<S>) -> (r: Vec<
    S,
>)
    requires
        circuit.wf(),
        layout.lays_out(circuit),
        x@.len() == layout.size,
    ensures
        r@ == Seq::new(
            circuit.node_names().len(),
            |n: int| node_volt(layout, x@, NodeId(n as u32)),
        ),
{
    let ghost all = Seq::new(
        circuit.node_names().len(),
        |n: int| node_volt(layout, x@, NodeId(n as u32)),
    );
    let count: usize = circuit.node_count();
    let mut out: Vec<S> = Vec::new();
    let mut n: usize = 0;
    while n < count
        invariant
            circuit.wf(),
            layout.lays_out(circuit),
            x@.len() == layout.size,
            count == circuit.node_names().len(),
            n <= count <= u32::MAX,
            all == Seq::new(
                circuit.node_names().len(),
                |n: int| node_volt(layout, x@, NodeId(n as u32)),
            ),
            out@ == all.take(n as int),
        decreases count - n,
    {
        out.push(node_v(circuit, layout, x, NodeId(n as u32)));
        assert(all.take(n + 1) =~= all.take(n as int).push(all[n as int]));
        n = n + 1;
    }
    assert(out@ =~= all);
    out
}

/// What a member rests at in its cluster's capture: its voltage at the capture's
/// operating point, zero where there is none or the capture does not reach it.
pub open spec fn member_rest<S: Scalar>(
    l2g: Seq<NodeId>,
    layout: &Layout<S>,
    x: Option<Vec<S>>,
    n: NodeId,
) -> S {
    match x {
        Some(v) => if l2g.contains(n) {
            node_volt(layout, v@, local_id(l2g, n))
        } else {
            S::spec_zero()
        },
        None => S::spec_zero(),
    }
}

/// Note what the members of a cluster rest at, given their capture's operating
/// point, if it has one.
pub fn note_rest<S: Scalar>(
    sub: &Circuit<S>,
    cap: &SubCircuit<S>,
    layout: &Layout<S>,
    x: &Option<Vec<S>>,
    members: &Vec<NodeId>,
    rest: &mut Vec<S>,
)
    requires
        cap.wf(sub),
        layout.lays_out(&cap.circuit),
        x matches Some(v) ==> v@.len() == layout.size,
        old(rest)@.len() == sub.node_names().len(),
        forall|m: int|
            0 <= m < members@.len() ==> (#[trigger] members@[m]).0 < sub.node_names().len(),
    ensures
        final(rest)@.len() == old(rest)@.len(),
        forall|n: int|
            0 <= n < final(rest)@.len() ==> #[trigger] final(rest)@[n] == (if members@.contains(
                NodeId(n as u32),
            ) {
                member_rest(cap.l2g@, layout, *x, NodeId(n as u32))
            } else {
                old(rest)@[n]
            }),
{
    let ghost before = rest@;
    let mut m: usize = 0;
    while m < members.len()
        invariant
            m <= members@.len(),
            cap.wf(sub),
            layout.lays_out(&cap.circuit),
            x matches Some(v) ==> v@.len() == layout.size,
            before.len() == sub.node_names().len() == rest@.len(),
            before.len() <= u32::MAX,
            forall|m: int|
                0 <= m < members@.len() ==> (#[trigger] members@[m]).0 < sub.node_names().len(),
            forall|n: int|
                0 <= n < rest@.len() ==> #[trigger] rest@[n] == (if members@.take(
                    m as int,
                ).contains(NodeId(n as u32)) {
                    member_rest(cap.l2g@, layout, *x, NodeId(n as u32))
                } else {
                    before[n]
                }),
        decreases members@.len() - m,
    {
        let n = members[m];
        let v: S = match x {
            Some(v) => match cap.local(sub, n) {
                Some(ln) => {
                    proof {
                        assert(cap.l2g@[ln.0 as int] == n);
                        assert(cap.l2g@.contains(n));
                    }
                    node_v(&cap.circuit, layout, v, ln)
                },
                None => S::zero(),
            },
            None => S::zero(),
        };
        assert(v == member_rest(cap.l2g@, layout, *x, n));
        let ghost was = rest@;
        rest.set(n.0 as usize, v);
        proof {
            let done = members@.take(m as int);
            let more = members@.take(m + 1);
            assert(more =~= done.push(n));
            assert forall|k: int| 0 <= k < rest@.len() implies #[trigger] rest@[k] == (
            if more.contains(NodeId(k as u32)) {
                member_rest(cap.l2g@, layout, *x, NodeId(k as u32))
            } else {
                before[k]
            }) by {
                let id = NodeId(k as u32);
                if k == n.0 {
                    assert(more[done.len() as int] == id);
                    assert(more.contains(id));
                } else {
                    assert(rest@[k] == was[k]);
                    if done.contains(id) {
                        let i = choose|i: int| 0 <= i < done.len() && done[i] == id;
                        assert(more[i] == id);
                    }
                    if more.contains(id) {
                        let i = choose|i: int| 0 <= i < more.len() && more[i] == id;
                        assert(i < done.len());
                        assert(done[i] == id);
                    }
                }
            }
        }
        m = m + 1;
    }
    proof {
        assert(members@.take(m as int) =~= members@);
    }
}

/// The seeds with a value at each of the first `count` rails.
pub open spec fn seeded<S>(
    seeds: Seq<Option<S>>,
    rails: Seq<RailTear<S>>,
    value: spec_fn(RailTear<S>) -> S,
    count: nat,
) -> Seq<Option<S>>
    decreases count,
{
    if count == 0 {
        seeds
    } else {
        let t = rails[count - 1];
        seeded(seeds, rails, value, (count - 1) as nat).update(t.rail.0 as int, Some(value(t)))
    }
}

/// No seed at any of so many nodes.
pub open spec fn unseeded<S>(nodes: nat) -> Seq<Option<S>> {
    Seq::new(nodes, |n: int| None::<S>)
}

fn no_seeds<S: Scalar>(nodes: usize) -> (r: Vec<Option<S>>)
    ensures
        r@ == unseeded::<S>(nodes as nat),
{
    let mut out: Vec<Option<S>> = Vec::new();
    while out.len() < nodes
        invariant
            out@.len() <= nodes,
            forall|n: int| 0 <= n < out@.len() ==> #[trigger] out@[n] == None::<S>,
        decreases nodes - out@.len(),
    {
        out.push(None);
    }
    assert(out@ =~= unseeded::<S>(nodes as nat));
    out
}

/// The seed of every rail where the group has an operating point: its voltage
/// there.
pub fn seeds_at_point<S: Scalar>(voltages: &Vec<S>, rails: &Vec<RailTear<S>>) -> (r: Vec<
    Option<S>,
>)
    requires
        forall|i: int|
            0 <= i < rails@.len() ==> (#[trigger] rails@[i]).rail.0 < voltages@.len(),
    ensures
        r@ == seeded(
            unseeded::<S>(voltages@.len()),
            rails@,
            |t: RailTear<S>| voltages@[t.rail.0 as int],
            rails@.len(),
        ),
{
    let ghost value = |t: RailTear<S>| voltages@[t.rail.0 as int];
    let mut seeds: Vec<Option<S>> = no_seeds(voltages.len());
    let mut i: usize = 0;
    while i < rails.len()
        invariant
            i <= rails@.len(),
            value == (|t: RailTear<S>| voltages@[t.rail.0 as int]),
            forall|i: int|
                0 <= i < rails@.len() ==> (#[trigger] rails@[i]).rail.0 < voltages@.len(),
            seeds@.len() == voltages@.len(),
            seeds@ == seeded(unseeded::<S>(voltages@.len()), rails@, value, i as nat),
        decreases rails@.len() - i,
    {
        let n: usize = rails[i].rail.0 as usize;
        seeds.set(n, Some(voltages[n]));
        i = i + 1;
    }
    seeds
}

/// The voltage that an ideal source drives onto a rail's feed at the start, or
/// zero.
pub open spec fn feed_seed<S: Scalar>(
    devices: Seq<Device<S>>,
    at_zero: Seq<S>,
    t: RailTear<S>,
) -> S {
    if t.feed.0 == 0 {
        S::spec_zero()
    } else {
        match driven_from(devices, at_zero, t.feed, 0) {
            Some(v) => v,
            None => S::spec_zero(),
        }
    }
}

/// The seed of every rail where the group has no operating point: the voltage of
/// its feed, which cascades down the rails.
pub fn seeds_from_feeds<S: Scalar>(
    sub: &Circuit<S>,
    at_zero: &Vec<S>,
    rails: &Vec<RailTear<S>>,
    nodes: usize,
) -> (r: Vec<Option<S>>)
    requires
        at_zero@.len() == sub.devices@.len(),
        forall|i: int| 0 <= i < rails@.len() ==> (#[trigger] rails@[i]).rail.0 < nodes,
    ensures
        r@ == cascaded(
            seeded(
                unseeded::<S>(nodes as nat),
                rails@,
                |t: RailTear<S>| feed_seed(sub.devices@, at_zero@, t),
                rails@.len(),
            ),
            rails@,
            rails@.len(),
        ),
{
    let ghost value = |t: RailTear<S>| feed_seed(sub.devices@, at_zero@, t);
    let mut seeds: Vec<Option<S>> = no_seeds(nodes);
    let mut i: usize = 0;
    while i < rails.len()
        invariant
            i <= rails@.len(),
            value == (|t: RailTear<S>| feed_seed(sub.devices@, at_zero@, t)),
            at_zero@.len() == sub.devices@.len(),
            forall|i: int| 0 <= i < rails@.len() ==> (#[trigger] rails@[i]).rail.0 < nodes,
            seeds@.len() == nodes,
            seeds@ == seeded(unseeded::<S>(nodes as nat), rails@, value, i as nat),
        decreases rails@.len() - i,
    {
        let v: S = match feed_source_value(sub, at_zero, rails[i].feed) {
            Some(v) => v,
            None => S::zero(),
        };
        seeds.set(rails[i].rail.0 as usize, Some(v));
        i = i + 1;
    }
    cascade_seeds(&mut seeds, rails);
    seeds
}

/// Whether a device pins a signal at its train.
pub open spec fn pins_signal<S: Scalar>(
    sub: &Circuit<S>,
    grid: Seq<S>,
    train: Seq<S>,
    n: NodeId,
    dev: Device<S>,
) -> bool {
    match dev {
        Device::Vsource { name, p, n: to, kind } => {
            &&& name@ == "VSTIFF_"@ + sub.node_names()[n.0 as int]
            &&& p == n
            &&& to == NodeId(0)
            &&& kind matches crate::circuit::SourceKind::Pwl(list) && list@ == points(grid, train)
        },
        _ => false,
    }
}

/// A group with its signals pinned at their trains: nodes and devices keep their
/// numbers, and the pins follow.
pub fn pin_signals<S: Scalar>(
    sub: &Circuit<S>,
    signals: &Vec<NodeId>,
    trains: &Vec<Vec<S>>,
    grid: &Vec<S>,
) -> (r: Circuit<S>)
    requires
        sub.wf(),
        sub.devices@.len() + signals@.len() <= u32::MAX,
        trains@.len() >= sub.node_names().len(),
        forall|i: int|
            0 <= i < signals@.len() ==> (#[trigger] signals@[i]).0 < sub.node_names().len(),
    ensures
        r.wf(),
        r.node_names() == sub.node_names(),
        r.temp_c == sub.temp_c,
        r.devices@.len() == sub.devices@.len() + signals@.len(),
        forall|d: int|
            0 <= d < sub.devices@.len() ==> same_device(sub.devices@[d], #[trigger] r.devices@[d]),
        forall|i: int|
            #![trigger signals@[i]]
            0 <= i < signals@.len() ==> pins_signal(
                sub,
                grid@,
                trains@[signals@[i].0 as int]@,
                signals@[i],
                r.devices@[sub.devices@.len() + i],
            ),
{
    let mut out: Circuit<S> = sub.duplicate();
    let mut i: usize = 0;
    while i < signals.len()
        invariant
            i <= signals@.len(),
            sub.wf(),
            sub.devices@.len() + signals@.len() <= u32::MAX,
            trains@.len() >= sub.node_names().len(),
            forall|i: int|
                0 <= i < signals@.len() ==> (#[trigger] signals@[i]).0 < sub.node_names().len(),
            out.wf(),
            out.node_names() == sub.node_names(),
            out.temp_c == sub.temp_c,
            out.devices@.len() == sub.devices@.len() + i,
            forall|d: int|
                0 <= d < sub.devices@.len() ==> same_device(
                    sub.devices@[d],
                    #[trigger] out.devices@[d],
                ),
            forall|k: int|
                #![trigger signals@[k]]
                0 <= k < i ==> pins_signal(
                    sub,
                    grid@,
                    trains@[signals@[k].0 as int]@,
                    signals@[k],
                    out.devices@[sub.devices@.len() + k],
                ),
        decreases signals@.len() - i,
    {
        let n = signals[i];
        let mut name: String = String::from_str("VSTIFF_");
        name.append(sub.node_name(n));
        let kind = train_source(grid, &trains[n.0 as usize]);
        let ghost before = out.devices@;
        out.add(Device::Vsource { name, p: n, n: NodeId::ground(), kind });
        proof {
            assert(forall|d: int| 0 <= d < before.len() ==> out.devices@[d] == before[d]);
        }
        i = i + 1;
    }
    out
}

} // verus!
