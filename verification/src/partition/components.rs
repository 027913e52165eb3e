//! Which nodes an ideal source pins, and which of the others devices tie
//! together.
use vstd::prelude::*;

use crate::circuit::{Device, NodeId};
use crate::partition::union_find::merged;
use crate::partition::union_find::UnionFind;

verus! {

/// One more node pinned.
pub open spec fn with_pin(pinned: Seq<bool>, node: int) -> Seq<bool> {
    Seq::new(pinned.len(), |i: int| i == node || pinned[i])
}

/// Pinned nodes after one device was looked at: a voltage source with one
/// terminal pinned pins the other.
pub open spec fn pin_device<S>(pinned: Seq<bool>, dev: Device<S>) -> Seq<bool> {
    match dev {
        Device::Vsource { p, n, .. } => {
            let up = if pinned[n.0 as int] {
                with_pin(pinned, p.0 as int)
            } else {
                pinned
            };
            if up[p.0 as int] {
                with_pin(up, n.0 as int)
            } else {
                up
            }
        },
        _ => pinned,
    }
}

/// Pinned nodes after the first `count` devices of a pass.
pub open spec fn pin_pass<S>(pinned: Seq<bool>, devices: Seq<Device<S>>, count: nat) -> Seq<bool>
    decreases count,
{
    if count == 0 {
        pinned
    } else {
        pin_device(pin_pass(pinned, devices, (count - 1) as nat), devices[count - 1])
    }
}

/// Pinned nodes after `passes` passes over all devices.
pub open spec fn pin_passes<S>(
    pinned: Seq<bool>,
    devices: Seq<Device<S>>,
    passes: nat,
) -> Seq<bool>
    decreases passes,
{
    if passes == 0 {
        pinned
    } else {
        pin_pass(pin_passes(pinned, devices, (passes - 1) as nat), devices, devices.len())
    }
}

/// The number of passes made: one per device, and no more than 64.
pub open spec fn pass_limit(count: nat) -> nat {
    if count < 64 {
        count
    } else {
        64
    }
}

/// Ground alone is pinned.
pub open spec fn ground_only(n: nat) -> Seq<bool> {
    Seq::new(n + 1, |i: int| i == 0)
}

/// The nodes whose voltage ideal sources fix, among nodes `0..=n`.
pub open spec fn pinned_nodes<S>(devices: Seq<Device<S>>, n: nat) -> Seq<bool> {
    pin_passes(ground_only(n), devices, pass_limit(devices.len()))
}

/// Whether every node of the devices is at most `n`.
pub open spec fn nodes_within<S>(devices: Seq<Device<S>>, n: nat) -> bool {
    forall|d: int, i: int|
        #![trigger devices[d].spec_nodes()[i]]
        0 <= d < devices.len() && 0 <= i < devices[d].spec_nodes().len()
            ==> devices[d].spec_nodes()[i].0 <= n
}

proof fn lemma_pin_len<S>(pinned: Seq<bool>, devices: Seq<Device<S>>, count: nat)
    ensures
        pin_pass(pinned, devices, count).len() == pinned.len(),
    decreases count,
{
    if count > 0 {
        lemma_pin_len(pinned, devices, (count - 1) as nat);
    }
}

proof fn lemma_pins_len<S>(pinned: Seq<bool>, devices: Seq<Device<S>>, passes: nat)
    ensures
        pin_passes(pinned, devices, passes).len() == pinned.len(),
    decreases passes,
{
    if passes > 0 {
        lemma_pins_len(pinned, devices, (passes - 1) as nat);
        lemma_pin_len(
            pin_passes(pinned, devices, (passes - 1) as nat),
            devices,
            devices.len(),
        );
    }
}

pub proof fn lemma_pinned_len<S>(devices: Seq<Device<S>>, n: nat)
    ensures
        pinned_nodes(devices, n).len() == n + 1,
{
    lemma_pins_len(ground_only(n), devices, pass_limit(devices.len()));
}

/// A pass that changes nothing is the last that could.
proof fn lemma_pins_settled<S>(pinned: Seq<bool>, devices: Seq<Device<S>>, j: nat, k: nat)
    requires
        j <= k,
        pin_pass(pin_passes(pinned, devices, j), devices, devices.len()) == pin_passes(
            pinned,
            devices,
            j,
        ),
    ensures
        pin_passes(pinned, devices, k) == pin_passes(pinned, devices, j),
    decreases k,
{
    if j < k {
        lemma_pins_settled(pinned, devices, j, (k - 1) as nat);
    }
}

/// A pass only adds pins.
proof fn lemma_pin_grows<S>(
    pinned: Seq<bool>,
    devices: Seq<Device<S>>,
    from: nat,
    to: nat,
    i: int,
)
    requires
        from <= to,
        0 <= i < pinned.len(),
        pin_pass(pinned, devices, from)[i],
    ensures
        pin_pass(pinned, devices, to)[i],
    decreases to,
{
    lemma_pin_len(pinned, devices, to);
    if from < to {
        lemma_pin_grows(pinned, devices, from, (to - 1) as nat, i);
        lemma_pin_len(pinned, devices, (to - 1) as nat);
    }
}

/// Whether the device is a voltage source with both terminals pinned.
spec fn settled_source<S>(pinned: Seq<bool>, dev: Device<S>) -> bool {
    match dev {
        Device::Vsource { p, n, .. } => pinned[p.0 as int] && pinned[n.0 as int],
        _ => false,
    }
}

spec fn settled_count<S>(pinned: Seq<bool>, devices: Seq<Device<S>>, count: nat) -> nat
    decreases count,
{
    if count == 0 {
        0
    } else {
        let rest = settled_count(pinned, devices, (count - 1) as nat);
        if settled_source(pinned, devices[count - 1]) {
            rest + 1
        } else {
            rest
        }
    }
}

proof fn lemma_settled_bound<S>(pinned: Seq<bool>, devices: Seq<Device<S>>, count: nat)
    ensures
        settled_count(pinned, devices, count) <= count,
        settled_count(pinned, devices, count) == count ==> forall|d: int|
            0 <= d < count ==> settled_source(pinned, #[trigger] devices[d]),
    decreases count,
{
    if count > 0 {
        lemma_settled_bound(pinned, devices, (count - 1) as nat);
    }
}

/// Looking at a source that pins a node settles one more source.
proof fn lemma_pin_progress<S>(
    pinned: Seq<bool>,
    devices: Seq<Device<S>>,
    k: int,
    count: nat,
)
    requires
        0 <= k < devices.len(),
        count <= devices.len(),
        forall|d: int, i: int|
            #![trigger devices[d].spec_nodes()[i]]
            0 <= d < devices.len() && 0 <= i < devices[d].spec_nodes().len()
                ==> devices[d].spec_nodes()[i].0 < pinned.len(),
    ensures
        settled_count(pin_device(pinned, devices[k]), devices, count) >= settled_count(
            pinned,
            devices,
            count,
        ) + if k < count && pin_device(pinned, devices[k]) != pinned {
            1int
        } else {
            0
        },
    decreases count,
{
    if count > 0 {
        lemma_pin_progress(pinned, devices, k, (count - 1) as nat);
        let after = pin_device(pinned, devices[k]);
        let dev = devices[count - 1];
        if dev is Vsource {
            assert(devices[count - 1].spec_nodes()[0].0 < pinned.len());
            assert(devices[count - 1].spec_nodes()[1].0 < pinned.len());
        }
        if k == count - 1 && after != pinned {
            assert(!settled_source(pinned, dev)) by {
                if settled_source(pinned, dev) {
                    assert(after =~= pinned);
                }
            }
            assert(settled_source(after, dev)) by {
                if let Device::Vsource { p, n, .. } = dev {
                    if !pinned[p.0 as int] && !pinned[n.0 as int] {
                        assert(after =~= pinned);
                    }
                }
            }
        }
    }
}

proof fn lemma_pass_progress<S>(
    pinned: Seq<bool>,
    devices: Seq<Device<S>>,
    count: nat,
)
    requires
        count <= devices.len(),
        forall|d: int, i: int|
            #![trigger devices[d].spec_nodes()[i]]
            0 <= d < devices.len() && 0 <= i < devices[d].spec_nodes().len()
                ==> devices[d].spec_nodes()[i].0 < pinned.len(),
    ensures
        settled_count(pin_pass(pinned, devices, count), devices, devices.len()) >= settled_count(
            pinned,
            devices,
            devices.len(),
        ) + if pin_pass(pinned, devices, count) != pinned {
            1int
        } else {
            0
        },
    decreases count,
{
    if count > 0 {
        lemma_pass_progress(pinned, devices, (count - 1) as nat);
        let before = pin_pass(pinned, devices, (count - 1) as nat);
        lemma_pin_len(pinned, devices, (count - 1) as nat);
        lemma_pin_progress(before, devices, count - 1, devices.len());
    }
}

proof fn lemma_passes_progress<S>(pinned: Seq<bool>, devices: Seq<Device<S>>, k: nat)
    requires
        forall|d: int, i: int|
            #![trigger devices[d].spec_nodes()[i]]
            0 <= d < devices.len() && 0 <= i < devices[d].spec_nodes().len()
                ==> devices[d].spec_nodes()[i].0 < pinned.len(),
    ensures
        ({
            let now = pin_passes(pinned, devices, k);
            ||| settled_count(now, devices, devices.len()) >= k
            ||| pin_pass(now, devices, devices.len()) == now
        }),
    decreases k,
{
    if k > 0 {
        lemma_passes_progress(pinned, devices, (k - 1) as nat);
        let before = pin_passes(pinned, devices, (k - 1) as nat);
        lemma_pins_len(pinned, devices, (k - 1) as nat);
        lemma_pass_progress(before, devices, devices.len());
    }
}

/// How many of the first `count` devices are voltage sources.
pub open spec fn source_count<S>(devices: Seq<Device<S>>, count: nat) -> nat
    decreases count,
{
    if count == 0 {
        0
    } else {
        source_count(devices, (count - 1) as nat) + if devices[count - 1] is Vsource {
            1nat
        } else {
            0
        }
    }
}

proof fn lemma_settled_sources<S>(pinned: Seq<bool>, devices: Seq<Device<S>>, count: nat)
    ensures
        settled_count(pinned, devices, count) <= source_count(devices, count),
        settled_count(pinned, devices, count) == source_count(devices, count) ==> forall|d: int|
            0 <= d < count && #[trigger] devices[d] is Vsource ==> settled_source(
                pinned,
                devices[d],
            ),
    decreases count,
{
    if count > 0 {
        lemma_settled_sources(pinned, devices, (count - 1) as nat);
    }
}

/// Whether the passes reached every supply: there are at most 64 sources, or one
/// pass more would pin nothing more.
pub open spec fn passes_suffice<S>(devices: Seq<Device<S>>, n: nat) -> bool {
    let now = pinned_nodes(devices, n);
    source_count(devices, devices.len()) <= 64 || pin_pass(now, devices, devices.len()) == now
}

/// Ground is pinned, and a voltage source with one terminal pinned has both
/// pinned, however deep supplies are stacked, where the passes suffice.
pub proof fn law_pins_reach_through_stacks<S>(devices: Seq<Device<S>>, n: nat, d: int)
    requires
        nodes_within(devices, n),
        passes_suffice(devices, n),
        0 <= d < devices.len(),
    ensures
        pinned_nodes(devices, n)[0],
        match devices[d] {
            Device::Vsource { p, n: low, .. } => pinned_nodes(devices, n)[p.0 as int]
                == pinned_nodes(devices, n)[low.0 as int],
            _ => true,
        },
{
    let start = ground_only(n);
    let now = pinned_nodes(devices, n);
    assert forall|d: int, i: int|
        #![trigger devices[d].spec_nodes()[i]]
        0 <= d < devices.len() && 0 <= i < devices[d].spec_nodes().len() implies devices[d].spec_nodes()[i].0
        < start.len() by {}
    lemma_passes_progress(start, devices, pass_limit(devices.len()));
    lemma_pinned_len(devices, n);
    lemma_ground_stays(start, devices, pass_limit(devices.len()));
    lemma_settled_bound(now, devices, devices.len());
    lemma_settled_sources(now, devices, devices.len());
    if devices[d] is Vsource {
        assert(devices[d].spec_nodes()[0].0 <= n);
        assert(devices[d].spec_nodes()[1].0 <= n);
        if pin_pass(now, devices, devices.len()) != now {
            assert(settled_source(now, devices[d]));
        } else {
            let mid = pin_pass(now, devices, d as nat);
            let next = pin_pass(now, devices, (d + 1) as nat);
            lemma_pin_len(now, devices, d as nat);
            lemma_pin_len(now, devices, (d + 1) as nat);
            assert(pin_pass(now, devices, 0) == now);
            assert(mid =~= now) by {
                assert forall|i: int| 0 <= i < now.len() implies mid[i] == now[i] by {
                    if mid[i] {
                        lemma_pin_grows(now, devices, d as nat, devices.len(), i);
                    }
                    if now[i] {
                        lemma_pin_grows(now, devices, 0, d as nat, i);
                    }
                }
            }
            assert(next =~= now) by {
                assert forall|i: int| 0 <= i < now.len() implies next[i] == now[i] by {
                    if next[i] {
                        lemma_pin_grows(now, devices, (d + 1) as nat, devices.len(), i);
                    }
                    if now[i] {
                        lemma_pin_grows(now, devices, 0, (d + 1) as nat, i);
                    }
                }
            }
            assert(next == pin_device(mid, devices[d]));
        }
    }
}

proof fn lemma_ground_stays<S>(pinned: Seq<bool>, devices: Seq<Device<S>>, passes: nat)
    requires
        pinned.len() > 0,
        pinned[0],
    ensures
        pin_passes(pinned, devices, passes)[0],
    decreases passes,
{
    if passes > 0 {
        lemma_ground_stays(pinned, devices, (passes - 1) as nat);
        let before = pin_passes(pinned, devices, (passes - 1) as nat);
        lemma_pins_len(pinned, devices, (passes - 1) as nat);
        assert(pin_pass(before, devices, 0) == before);
        lemma_pin_grows(before, devices, 0, devices.len(), 0);
    }
}

/// The nodes whose voltage ideal sources fix.
pub fn pin<S>(devices: &Vec<Device<S>>, n: usize) -> (r: Vec<bool>)
    requires
        n < usize::MAX,
        nodes_within(devices@, n as nat),
    ensures
        r@ == pinned_nodes(devices@, n as nat),
        r@.len() == n + 1,
{
    let ghost start = ground_only(n as nat);
    let ghost devs = devices@;
    let mut pinned: Vec<bool> = Vec::new();
    pinned.push(true);
    let mut i: usize = 0;
    while i < n
        invariant
            i <= n,
            n < usize::MAX,
            pinned@.len() == i + 1,
            forall|j: int| 0 <= j <= i ==> pinned@[j] == (j == 0),
        decreases n - i,
    {
        pinned.push(false);
        i = i + 1;
    }
    assert(pinned@ =~= start);
    let limit: usize = if devices.len() < 64 {
        devices.len()
    } else {
        64
    };
    let mut pass: usize = 0;
    while pass < limit
        invariant_except_break
            pass <= limit,
            pinned@ == pin_passes(start, devs, pass as nat),
        invariant
            devs == devices@,
            start == ground_only(n as nat),
            nodes_within(devs, n as nat),
            limit == pass_limit(devs.len()),
            pinned@.len() == n + 1,
        ensures
            pinned@ == pin_passes(start, devs, limit as nat),
        decreases limit - pass,
    {
        let ghost before = pinned@;
        let mut changed: bool = false;
        let mut d: usize = 0;
        while d < devices.len()
            invariant
                d <= devices.len(),
                devs == devices@,
                nodes_within(devs, n as nat),
                before.len() == n + 1,
                pinned@.len() == n + 1,
                pinned@ == pin_pass(before, devs, d as nat),
                !changed ==> pinned@ == before,
            decreases devices.len() - d,
        {
            let ghost held = pinned@;
            match &devices[d] {
                Device::Vsource { p, n: low, .. } => {
                    assert(devs[d as int].spec_nodes()[0] == *p);
                    assert(devs[d as int].spec_nodes()[1] == *low);
                    let pi: usize = p.0 as usize;
                    let ni: usize = low.0 as usize;
                    if pinned[ni] && !pinned[pi] {
                        pinned.set(pi, true);
                        changed = true;
                    }
                    if pinned[pi] && !pinned[ni] {
                        pinned.set(ni, true);
                        changed = true;
                    }
                    assert(pinned@ =~= pin_device(held, devs[d as int]));
                },
                _ => {},
            }
            d = d + 1;
        }
        if !changed {
            proof {
                lemma_pins_settled(start, devs, pass as nat, limit as nat);
            }
            break;
        }
        pass = pass + 1;
    }
    pinned
}

/// The nodes, in order, that are neither ground nor pinned.
pub open spec fn free_upto(nodes: Seq<NodeId>, pinned: Seq<bool>, count: nat) -> Seq<int>
    decreases count,
{
    if count == 0 {
        Seq::empty()
    } else {
        let rest = free_upto(nodes, pinned, (count - 1) as nat);
        let n = nodes[count - 1];
        if n.0 != 0 && !pinned[n.0 as int] {
            rest.push(n.0 as int)
        } else {
            rest
        }
    }
}

/// The nodes by which a device ties others together: none for a voltage source.
pub open spec fn free_nodes<S>(dev: Device<S>, pinned: Seq<bool>) -> Seq<int> {
    if dev is Vsource {
        Seq::empty()
    } else {
        free_upto(dev.spec_nodes(), pinned, dev.spec_nodes().len())
    }
}

/// Labels after the first `count` of a list of nodes were tied together.
pub open spec fn tied(labels: Seq<int>, free: Seq<int>, count: nat) -> Seq<int>
    decreases count,
{
    if count <= 1 {
        labels
    } else {
        merged(tied(labels, free, (count - 1) as nat), free[count - 2], free[count - 1])
    }
}

/// Labels after the first `count` devices were looked at; node `i` starts with
/// label `i`.
pub open spec fn labels_after<S>(
    devices: Seq<Device<S>>,
    pinned: Seq<bool>,
    n: nat,
    count: nat,
) -> Seq<int>
    decreases count,
{
    if count == 0 {
        Seq::new(n + 1, |i: int| i)
    } else {
        let free = free_nodes(devices[count - 1], pinned);
        tied(labels_after(devices, pinned, n, (count - 1) as nat), free, free.len())
    }
}

/// A label for every node: equal exactly when devices tie the nodes together.
pub open spec fn component_labels<S>(devices: Seq<Device<S>>, n: nat) -> Seq<int> {
    labels_after(devices, pinned_nodes(devices, n), n, devices.len())
}

/// The free nodes of a device with all nodes within `0..=n` are within it too.
pub proof fn lemma_free_within(nodes: Seq<NodeId>, pinned: Seq<bool>, count: nat, n: nat)
    requires
        count <= nodes.len(),
        forall|i: int| 0 <= i < nodes.len() ==> nodes[i].0 <= n,
    ensures
        forall|i: int|
            0 <= i < free_upto(nodes, pinned, count).len() ==> 0 < #[trigger] free_upto(
                nodes,
                pinned,
                count,
            )[i] <= n,
        forall|i: int|
            0 <= i < free_upto(nodes, pinned, count).len() ==> !pinned[#[trigger] free_upto(
                nodes,
                pinned,
                count,
            )[i]],
        free_upto(nodes, pinned, count).len() <= count,
    decreases count,
{
    if count > 0 {
        lemma_free_within(nodes, pinned, (count - 1) as nat, n);
    }
}

/// Tie the free nodes of every device together.
pub fn label<S>(devices: &Vec<Device<S>>, pinned: &Vec<bool>, n: usize) -> (r: UnionFind)
    requires
        n < usize::MAX,
        pinned@.len() == n + 1,
        nodes_within(devices@, n as nat),
    ensures
        r.wf(),
        r.labels() == labels_after(devices@, pinned@, n as nat, devices@.len()),
        r.labels().len() == n + 1,
{
    let ghost devs = devices@;
    let mut uf = UnionFind::new(n + 1);
    let mut d: usize = 0;
    while d < devices.len()
        invariant
            d <= devices.len(),
            devs == devices@,
            n < usize::MAX,
            pinned@.len() == n + 1,
            nodes_within(devs, n as nat),
            uf.wf(),
            uf.labels().len() == n + 1,
            uf.labels() == labels_after(devs, pinned@, n as nat, d as nat),
        decreases devices.len() - d,
    {
        let ghost before = uf.labels();
        let ghost dev = devs[d as int];
        let is_source: bool = match &devices[d] {
            Device::Vsource { .. } => true,
            _ => false,
        };
        if !is_source {
            let nodes = devices[d].nodes();
            let ghost free = free_nodes(dev, pinned@);
            let mut last: Option<usize> = None;
            let mut i: usize = 0;
            while i < nodes.len()
                invariant
                    i <= nodes.len(),
                    nodes@ == dev.spec_nodes(),
                    forall|j: int| 0 <= j < nodes@.len() ==> nodes@[j].0 <= n,
                    pinned@.len() == n + 1,
                    before.len() == n + 1,
                    uf.wf(),
                    uf.labels().len() == n + 1,
                    ({
                        let part = free_upto(nodes@, pinned@, i as nat);
                        &&& uf.labels() == tied(before, part, part.len())
                        &&& part.len() == 0 ==> last is None
                        &&& part.len() > 0 ==> last == Some(part.last() as usize) && 0 < part.last()
                            <= n
                    }),
                decreases nodes.len() - i,
            {
                let ghost part = free_upto(nodes@, pinned@, i as nat);
                let node = nodes[i];
                if node.0 != 0 && !pinned[node.0 as usize] {
                    let at: usize = node.0 as usize;
                    match last {
                        Some(prev) => {
                            uf.union(prev, at);
                        },
                        None => {},
                    }
                    proof {
                        let more = part.push(at as int);
                        assert(free_upto(nodes@, pinned@, (i + 1) as nat) == more);
                        lemma_tied_prefix(before, part, more, part.len());
                    }
                    last = Some(at);
                }
                i = i + 1;
            }
        }
        d = d + 1;
    }
    uf
}

proof fn lemma_tied_prefix(labels: Seq<int>, a: Seq<int>, b: Seq<int>, count: nat)
    requires
        count <= a.len(),
        count <= b.len(),
        forall|i: int| 0 <= i < count ==> a[i] == b[i],
    ensures
        tied(labels, a, count) == tied(labels, b, count),
    decreases count,
{
    if count > 1 {
        lemma_tied_prefix(labels, a, b, (count - 1) as nat);
    }
}

/// Whether one of the devices ties both nodes.
pub open spec fn adjacent<S>(devices: Seq<Device<S>>, pinned: Seq<bool>, x: int, y: int) -> bool {
    exists|d: int|
        0 <= d < devices.len() && #[trigger] free_nodes(devices[d], pinned).contains(x)
            && free_nodes(devices[d], pinned).contains(y)
}

/// A walk over adjacent nodes.
pub open spec fn is_walk<S>(devices: Seq<Device<S>>, pinned: Seq<bool>, path: Seq<int>) -> bool {
    &&& path.len() >= 1
    &&& forall|i: int|
        0 <= i < path.len() - 1 ==> adjacent(devices, pinned, #[trigger] path[i], path[i + 1])
}

/// Whether devices tie the two nodes together, directly or through others.
pub open spec fn connected<S>(
    devices: Seq<Device<S>>,
    pinned: Seq<bool>,
    x: int,
    y: int,
) -> bool {
    exists|path: Seq<int>|
        #[trigger] is_walk(devices, pinned, path) && path[0] == x && path.last() == y
}

proof fn lemma_walk_self<S>(devices: Seq<Device<S>>, pinned: Seq<bool>, x: int)
    ensures
        connected(devices, pinned, x, x),
{
    assert(is_walk(devices, pinned, seq![x]));
}

proof fn lemma_walk_back<S>(devices: Seq<Device<S>>, pinned: Seq<bool>, x: int, y: int)
    requires
        connected(devices, pinned, x, y),
    ensures
        connected(devices, pinned, y, x),
{
    let path = choose|path: Seq<int>|
        #[trigger] is_walk(devices, pinned, path) && path[0] == x && path.last() == y;
    let back = Seq::new(path.len(), |i: int| path[path.len() - 1 - i]);
    assert forall|i: int| 0 <= i < back.len() - 1 implies adjacent(
        devices,
        pinned,
        #[trigger] back[i],
        back[i + 1],
    ) by {
        let j = path.len() - 2 - i;
        assert(adjacent(devices, pinned, path[j], path[j + 1]));
        let d = choose|d: int|
            0 <= d < devices.len() && #[trigger] free_nodes(devices[d], pinned).contains(path[j])
                && free_nodes(devices[d], pinned).contains(path[j + 1]);
        assert(free_nodes(devices[d], pinned).contains(back[i]));
    }
    assert(is_walk(devices, pinned, back));
}

proof fn lemma_walk_on<S>(devices: Seq<Device<S>>, pinned: Seq<bool>, x: int, y: int, z: int)
    requires
        connected(devices, pinned, x, y),
        connected(devices, pinned, y, z),
    ensures
        connected(devices, pinned, x, z),
{
    let a = choose|path: Seq<int>|
        #[trigger] is_walk(devices, pinned, path) && path[0] == x && path.last() == y;
    let b = choose|path: Seq<int>|
        #[trigger] is_walk(devices, pinned, path) && path[0] == y && path.last() == z;
    let both = a + b.drop_first();
    assert forall|i: int| 0 <= i < both.len() - 1 implies adjacent(
        devices,
        pinned,
        #[trigger] both[i],
        both[i + 1],
    ) by {
        if i < a.len() - 1 {
            assert(both[i] == a[i] && both[i + 1] == a[i + 1]);
        } else {
            let j = i - (a.len() - 1);
            assert(both[i] == b[j]);
            assert(both[i + 1] == b[j + 1]);
        }
    }
    assert(is_walk(devices, pinned, both));
    assert(both.last() == z) by {
        if b.len() == 1 {
            assert(both =~= a);
        } else {
            assert(both.last() == b.last());
        }
    }
}

/// What holds of labels at every stage: they stay in range, lead to a node of
/// the same label no larger than any that carries it, and equal labels mean
/// connected nodes.
spec fn sound<S>(devices: Seq<Device<S>>, pinned: Seq<bool>, labels: Seq<int>) -> bool {
    &&& forall|i: int|
        0 <= i < labels.len() ==> 0 <= #[trigger] labels[i] <= i && labels[labels[i]] == labels[i]
    &&& forall|i: int, j: int|
        #![trigger labels[i], labels[j]]
        0 <= i < labels.len() && 0 <= j < labels.len() && labels[i] == labels[j] ==> connected(
            devices,
            pinned,
            i,
            j,
        )
}

proof fn lemma_merged_sound<S>(
    devices: Seq<Device<S>>,
    pinned: Seq<bool>,
    labels: Seq<int>,
    a: int,
    b: int,
)
    requires
        sound(devices, pinned, labels),
        0 <= a < labels.len(),
        0 <= b < labels.len(),
        connected(devices, pinned, a, b),
    ensures
        sound(devices, pinned, merged(labels, a, b)),
{
    let after = merged(labels, a, b);
    lemma_walk_back(devices, pinned, a, b);
    assert forall|i: int| 0 <= i < after.len() implies 0 <= #[trigger] after[i] <= i
        && after[after[i]] == after[i] by {
        assert(0 <= labels[i] <= i);
        assert(labels[labels[i]] == labels[i]);
        assert(labels[labels[a]] == labels[a]);
        assert(labels[labels[b]] == labels[b]);
    }
    assert forall|i: int, j: int|
        #![trigger after[i], after[j]]
        0 <= i < after.len() && 0 <= j < after.len() && after[i] == after[j] implies connected(
        devices,
        pinned,
        i,
        j,
    ) by {
        if labels[i] != labels[j] {
            if labels[i] == labels[a] {
                assert(labels[j] == labels[b]);
                lemma_walk_on(devices, pinned, i, a, b);
                lemma_walk_on(devices, pinned, i, b, j);
            } else {
                assert(labels[i] == labels[b]);
                assert(labels[j] == labels[a]);
                lemma_walk_on(devices, pinned, i, b, a);
                lemma_walk_on(devices, pinned, i, a, j);
            }
        }
    }
}

/// Tying keeps what was tied.
proof fn lemma_tied_keeps(labels: Seq<int>, free: Seq<int>, count: nat, x: int, y: int)
    requires
        0 <= x < labels.len(),
        0 <= y < labels.len(),
        labels[x] == labels[y],
    ensures
        tied(labels, free, count).len() == labels.len(),
        tied(labels, free, count)[x] == tied(labels, free, count)[y],
    decreases count,
{
    if count > 1 {
        lemma_tied_keeps(labels, free, (count - 1) as nat, x, y);
    }
}

proof fn lemma_tied_joins(labels: Seq<int>, free: Seq<int>, count: nat, k: int)
    requires
        0 <= k < count <= free.len(),
        forall|i: int| 0 <= i < free.len() ==> 0 <= #[trigger] free[i] < labels.len(),
    ensures
        tied(labels, free, count).len() == labels.len(),
        tied(labels, free, count)[free[k]] == tied(labels, free, count)[free[0]],
    decreases count,
{
    if count <= 1 {
    } else {
        let before = tied(labels, free, (count - 1) as nat);
        lemma_tied_joins(labels, free, (count - 1) as nat, 0);
        if k < count - 1 {
            lemma_tied_joins(labels, free, (count - 1) as nat, k);
        } else {
            lemma_tied_joins(labels, free, (count - 1) as nat, count - 2);
        }
    }
}

proof fn lemma_tied_sound<S>(
    devices: Seq<Device<S>>,
    pinned: Seq<bool>,
    labels: Seq<int>,
    d: int,
    count: nat,
)
    requires
        sound(devices, pinned, labels),
        0 <= d < devices.len(),
        count <= free_nodes(devices[d], pinned).len(),
        forall|i: int|
            0 <= i < free_nodes(devices[d], pinned).len() ==> 0 <= #[trigger] free_nodes(
                devices[d],
                pinned,
            )[i] < labels.len(),
    ensures
        sound(devices, pinned, tied(labels, free_nodes(devices[d], pinned), count)),
        tied(labels, free_nodes(devices[d], pinned), count).len() == labels.len(),
    decreases count,
{
    let free = free_nodes(devices[d], pinned);
    if count > 1 {
        lemma_tied_sound(devices, pinned, labels, d, (count - 1) as nat);
        let a = free[count - 2];
        let b = free[count - 1];
        assert(free.contains(a) && free.contains(b));
        assert(adjacent(devices, pinned, a, b));
        let path = seq![a, b];
        assert(is_walk(devices, pinned, path));
        assert(path.last() == b);
        assert(connected(devices, pinned, a, b));
        lemma_merged_sound(devices, pinned, tied(labels, free, (count - 1) as nat), a, b);
    }
}

proof fn lemma_labels_sound<S>(
    devices: Seq<Device<S>>,
    pinned: Seq<bool>,
    n: nat,
    count: nat,
)
    requires
        count <= devices.len(),
        nodes_within(devices, n),
        pinned.len() == n + 1,
    ensures
        sound(devices, pinned, labels_after(devices, pinned, n, count)),
        labels_after(devices, pinned, n, count).len() == n + 1,
    decreases count,
{
    if count == 0 {
        let labels = labels_after(devices, pinned, n, count);
        assert forall|i: int, j: int|
            #![trigger labels[i], labels[j]]
            0 <= i < labels.len() && 0 <= j < labels.len() && labels[i] == labels[j] implies connected(
            devices,
            pinned,
            i,
            j,
        ) by {
            lemma_walk_self(devices, pinned, i);
        }
    } else {
        lemma_labels_sound(devices, pinned, n, (count - 1) as nat);
        let dev = devices[count - 1];
        assert forall|i: int| 0 <= i < dev.spec_nodes().len() implies dev.spec_nodes()[i].0
            <= n by {
            assert(devices[count - 1].spec_nodes()[i].0 <= n);
        }
        lemma_free_within(dev.spec_nodes(), pinned, dev.spec_nodes().len(), n);
        lemma_tied_sound(
            devices,
            pinned,
            labels_after(devices, pinned, n, (count - 1) as nat),
            count - 1,
            free_nodes(dev, pinned).len(),
        );
    }
}

/// The free nodes of a device that was looked at carry one label.
proof fn lemma_device_labelled<S>(
    devices: Seq<Device<S>>,
    pinned: Seq<bool>,
    n: nat,
    count: nat,
    d: int,
    x: int,
    y: int,
)
    requires
        0 <= d < count <= devices.len(),
        nodes_within(devices, n),
        pinned.len() == n + 1,
        free_nodes(devices[d], pinned).contains(x),
        free_nodes(devices[d], pinned).contains(y),
    ensures
        0 <= x <= n,
        0 <= y <= n,
        labels_after(devices, pinned, n, count)[x] == labels_after(devices, pinned, n, count)[y],
    decreases count,
{
    let dev = devices[count - 1];
    let free = free_nodes(dev, pinned);
    let before = labels_after(devices, pinned, n, (count - 1) as nat);
    lemma_labels_sound(devices, pinned, n, (count - 1) as nat);
    assert forall|i: int| 0 <= i < dev.spec_nodes().len() implies dev.spec_nodes()[i].0
            <= n by {
            assert(devices[count - 1].spec_nodes()[i].0 <= n);
        }
    lemma_free_within(dev.spec_nodes(), pinned, dev.spec_nodes().len(), n);
    if d == count - 1 {
        let i = choose|i: int| 0 <= i < free.len() && free[i] == x;
        let j = choose|j: int| 0 <= j < free.len() && free[j] == y;
        lemma_tied_joins(before, free, free.len(), i);
        lemma_tied_joins(before, free, free.len(), j);
    } else {
        lemma_device_labelled(devices, pinned, n, (count - 1) as nat, d, x, y);
        lemma_tied_keeps(before, free, free.len(), x, y);
    }
}

proof fn lemma_walk_labelled<S>(
    devices: Seq<Device<S>>,
    pinned: Seq<bool>,
    n: nat,
    path: Seq<int>,
    k: int,
)
    requires
        nodes_within(devices, n),
        pinned.len() == n + 1,
        is_walk(devices, pinned, path),
        0 <= k < path.len(),
        0 <= path[0] <= n,
    ensures
        0 <= path[k] <= n,
        labels_after(devices, pinned, n, devices.len())[path[k]] == labels_after(
            devices,
            pinned,
            n,
            devices.len(),
        )[path[0]],
    decreases k,
{
    if k > 0 {
        lemma_walk_labelled(devices, pinned, n, path, k - 1);
        assert(adjacent(devices, pinned, path[k - 1], path[k - 1 + 1]));
        let d = choose|d: int|
            0 <= d < devices.len() && #[trigger] free_nodes(devices[d], pinned).contains(
                path[k - 1],
            ) && free_nodes(devices[d], pinned).contains(path[k]);
        lemma_device_labelled(
            devices,
            pinned,
            n,
            devices.len(),
            d,
            path[k - 1],
            path[k],
        );
    }
}

/// Two nodes carry the same label exactly when devices connect them, and a label
/// is the least node that carries it.
pub proof fn law_labels_are_components<S>(devices: Seq<Device<S>>, n: nat, x: int, y: int)
    requires
        nodes_within(devices, n),
        0 <= x <= n,
        0 <= y <= n,
    ensures
        component_labels(devices, n).len() == n + 1,
        component_labels(devices, n)[x] == component_labels(devices, n)[y] <==> connected(
            devices,
            pinned_nodes(devices, n),
            x,
            y,
        ),
        0 <= component_labels(devices, n)[x] <= x,
        component_labels(devices, n)[component_labels(devices, n)[x]] == component_labels(
            devices,
            n,
        )[x],
{
    let pinned = pinned_nodes(devices, n);
    lemma_pinned_len(devices, n);
    lemma_labels_sound(devices, pinned, n, devices.len());
    if connected(devices, pinned, x, y) {
        let path = choose|path: Seq<int>|
            #[trigger] is_walk(devices, pinned, path) && path[0] == x && path.last() == y;
        lemma_walk_labelled(devices, pinned, n, path, path.len() - 1);
    }
}

} // verus!
