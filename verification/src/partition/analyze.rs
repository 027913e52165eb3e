//! The islands of a circuit.
use vstd::prelude::*;

use crate::circuit::lemma_greatest_used;
use crate::circuit::{Circuit, Device, DeviceId, NodeId};
use crate::ids;
use crate::ids::ascending;
use crate::partition::components::{
    adjacent, component_labels, connected, free_nodes, free_upto, is_walk, label,
    law_labels_are_components, lemma_free_within, lemma_pinned_len,
    nodes_within, pin, pinned_nodes,
};
use crate::scalar::Scalar;
use crate::text::{decimal, decimal_digits};
use vstd::string::*;

verus! {

/// One island: a set of devices, the nodes they touch, and a linearity verdict.
#[derive(Debug, Clone)]
pub struct Island {
    /// Devices of this island, in circuit order.
    pub devices: Vec<DeviceId>,
    /// All non-ground nodes any of its devices touches, ascending.
    pub nodes: Vec<NodeId>,
    /// Whether every device is linear, so that no Newton iteration is needed.
    pub linear: bool,
    /// The nodes whose voltage comes from outside: pinned by an ideal source or
    /// shared with another island. Ascending.
    pub boundary_in: Vec<NodeId>,
}

/// The partition of a circuit.
#[derive(Debug, Clone)]
pub struct Partition {
    /// The islands, ordered by the least free node of each.
    pub islands: Vec<Island>,
    /// The ideal voltage sources, which belong to no island.
    pub sources: Vec<DeviceId>,
    /// Total non-ground node count, for sizing exchange buffers.
    pub n_nodes: usize,
}

/// The ids of the voltage sources among the first `count` devices.
pub open spec fn source_ids<S>(devices: Seq<Device<S>>, count: nat) -> Seq<DeviceId>
    decreases count,
{
    if count == 0 {
        Seq::empty()
    } else {
        let rest = source_ids(devices, (count - 1) as nat);
        if devices[count - 1] is Vsource {
            rest.push(DeviceId((count - 1) as u32))
        } else {
            rest
        }
    }
}

/// Whether the device belongs to the island labelled `key`.
pub open spec fn belongs<S>(
    dev: Device<S>,
    pinned: Seq<bool>,
    labels: Seq<int>,
    key: int,
) -> bool {
    free_nodes(dev, pinned).len() > 0 && labels[free_nodes(dev, pinned)[0]] == key
}

/// The ids of the devices labelled `key` among the first `count`.
pub open spec fn members<S>(
    devices: Seq<Device<S>>,
    pinned: Seq<bool>,
    labels: Seq<int>,
    key: int,
    count: nat,
) -> Seq<DeviceId>
    decreases count,
{
    if count == 0 {
        Seq::empty()
    } else {
        let rest = members(devices, pinned, labels, key, (count - 1) as nat);
        if belongs(devices[count - 1], pinned, labels, key) {
            rest.push(DeviceId((count - 1) as u32))
        } else {
            rest
        }
    }
}

/// The labels below `upto` that some device carries, ascending.
pub open spec fn keys<S>(
    devices: Seq<Device<S>>,
    pinned: Seq<bool>,
    labels: Seq<int>,
    upto: nat,
) -> Seq<int>
    decreases upto,
{
    if upto == 0 {
        Seq::empty()
    } else {
        let rest = keys(devices, pinned, labels, (upto - 1) as nat);
        if members(devices, pinned, labels, upto - 1, devices.len()).len() > 0 {
            rest.push(upto - 1)
        } else {
            rest
        }
    }
}

/// Whether some device of the list touches the node.
pub open spec fn touches<S>(devices: Seq<Device<S>>, ids: Seq<DeviceId>, n: NodeId) -> bool {
    exists|k: int|
        0 <= k < ids.len() && #[trigger] devices[ids[k].0 as int].spec_nodes().contains(n)
}

/// Whether the island is that of the given devices, its boundary aside.
pub open spec fn holds_devices<S>(devices: Seq<Device<S>>, ids: Seq<DeviceId>, isl: Island) -> bool {
    &&& isl.devices@ == ids
    &&& isl.linear <==> forall|k: int|
        0 <= k < ids.len() ==> #[trigger] devices[ids[k].0 as int].spec_is_linear()
    &&& ascending(isl.nodes@)
    &&& forall|n: NodeId|
        #[trigger] isl.nodes@.contains(n) <==> n.0 != 0 && touches(devices, ids, n)
}

/// Whether two of the first `count` islands touch the node.
pub open spec fn shared(islands: Seq<Island>, count: int, n: NodeId) -> bool {
    exists|i: int, j: int|
        #![trigger islands[i].nodes@.contains(n), islands[j].nodes@.contains(n)]
        0 <= i < j < count && islands[i].nodes@.contains(n) && islands[j].nodes@.contains(n)
}

/// Whether the island's boundary is its pinned and shared nodes.
pub open spec fn has_boundary(islands: Seq<Island>, pinned: Seq<bool>, isl: Island) -> bool {
    &&& ascending(isl.boundary_in@)
    &&& forall|n: NodeId|
        #[trigger] isl.boundary_in@.contains(n) <==> isl.nodes@.contains(n) && (pinned[n.0 as int]
            || shared(islands, islands.len() as int, n))
}

/// Whether `p` is the partition of the devices, over nodes `0..=n`.
pub open spec fn is_partition<S>(devices: Seq<Device<S>>, n: nat, p: Partition) -> bool {
    let pinned = pinned_nodes(devices, n);
    let labels = component_labels(devices, n);
    let ks = keys(devices, pinned, labels, n + 1);
    &&& p.n_nodes == n
    &&& p.sources@ == source_ids(devices, devices.len())
    &&& p.islands@.len() == ks.len()
    &&& forall|i: int|
        #![trigger p.islands@[i]]
        0 <= i < ks.len() ==> holds_devices(
            devices,
            members(devices, pinned, labels, ks[i], devices.len()),
            p.islands@[i],
        ) && has_boundary(p.islands@, pinned, p.islands@[i])
}

pub proof fn lemma_members<S>(
    devices: Seq<Device<S>>,
    pinned: Seq<bool>,
    labels: Seq<int>,
    key: int,
    count: nat,
)
    requires
        count <= devices.len() <= u32::MAX,
    ensures
        forall|k: int|
            #![trigger members(devices, pinned, labels, key, count)[k]]
            0 <= k < members(devices, pinned, labels, key, count).len() ==> {
                let id = members(devices, pinned, labels, key, count)[k].0;
                id < count && belongs(devices[id as int], pinned, labels, key)
            },
        forall|d: int|
            #![trigger devices[d]]
            0 <= d < count && belongs(devices[d], pinned, labels, key) ==> members(
                devices,
                pinned,
                labels,
                key,
                count,
            ).contains(DeviceId(d as u32)),
    decreases count,
{
    if count > 0 {
        lemma_members(devices, pinned, labels, key, (count - 1) as nat);
        let all = members(devices, pinned, labels, key, count);
        let rest = members(devices, pinned, labels, key, (count - 1) as nat);
        assert forall|d: int|
            #![trigger devices[d]]
            0 <= d < count && belongs(devices[d], pinned, labels, key) implies all.contains(
            DeviceId(d as u32),
        ) by {
            if d < count - 1 {
                assert(rest.contains(DeviceId(d as u32)));
                let k = choose|k: int| 0 <= k < rest.len() && rest[k] == DeviceId(d as u32);
                assert(all[k] == DeviceId(d as u32));
            } else {
                assert(all.last() == DeviceId(d as u32));
            }
        }
    }
}

pub proof fn lemma_keys<S>(
    devices: Seq<Device<S>>,
    pinned: Seq<bool>,
    labels: Seq<int>,
    upto: nat,
)
    ensures
        forall|i: int|
            #![trigger keys(devices, pinned, labels, upto)[i]]
            0 <= i < keys(devices, pinned, labels, upto).len() ==> 0 <= keys(
                devices,
                pinned,
                labels,
                upto,
            )[i] < upto && members(
                devices,
                pinned,
                labels,
                keys(devices, pinned, labels, upto)[i],
                devices.len(),
            ).len() > 0,
        forall|i: int, j: int|
            #![trigger keys(devices, pinned, labels, upto)[i], keys(devices, pinned, labels, upto)[j]]
            0 <= i < j < keys(devices, pinned, labels, upto).len() ==> keys(
                devices,
                pinned,
                labels,
                upto,
            )[i] < keys(devices, pinned, labels, upto)[j],
        forall|k: int|
            0 <= k < upto && #[trigger] members(devices, pinned, labels, k, devices.len()).len() > 0
                ==> keys(devices, pinned, labels, upto).contains(k),
    decreases upto,
{
    if upto > 0 {
        lemma_keys(devices, pinned, labels, (upto - 1) as nat);
        let rest = keys(devices, pinned, labels, (upto - 1) as nat);
        let all = keys(devices, pinned, labels, upto);
        assert forall|k: int|
            0 <= k < upto && #[trigger] members(devices, pinned, labels, k, devices.len()).len()
                > 0 implies all.contains(k) by {
            if k < upto - 1 {
                assert(rest.contains(k));
                let i = choose|i: int| 0 <= i < rest.len() && rest[i] == k;
                assert(all[i] == k);
            } else {
                assert(all.last() == k);
            }
        }
    }
}

/// The island of a list of devices, its boundary still empty.
fn gather<S: Scalar>(circuit: &Circuit<S>, ids: &Vec<usize>) -> (r: Island)
    requires
        circuit.devices@.len() <= u32::MAX,
        forall|k: int| 0 <= k < ids@.len() ==> ids@[k] < circuit.devices@.len(),
    ensures
        holds_devices(
            circuit.devices@,
            Seq::new(ids@.len(), |k: int| DeviceId(ids@[k] as u32)),
            r,
        ),
{
    let ghost devs = circuit.devices@;
    let ghost want = Seq::new(ids@.len(), |k: int| DeviceId(ids@[k] as u32));
    let mut devices: Vec<DeviceId> = Vec::new();
    let mut nodes: Vec<NodeId> = Vec::new();
    let mut linear: bool = true;
    let mut k: usize = 0;
    while k < ids.len()
        invariant
            k <= ids@.len(),
            devs == circuit.devices@,
            devs.len() <= u32::MAX,
            want == Seq::new(ids@.len(), |k: int| DeviceId(ids@[k] as u32)),
            forall|j: int| 0 <= j < ids@.len() ==> ids@[j] < devs.len(),
            devices@ == want.take(k as int),
            linear <==> forall|j: int|
                0 <= j < k ==> #[trigger] devs[want[j].0 as int].spec_is_linear(),
            ascending(nodes@),
            forall|n: NodeId|
                #[trigger] nodes@.contains(n) <==> n.0 != 0 && touches(
                    devs,
                    want.take(k as int),
                    n,
                ),
        decreases ids@.len() - k,
    {
        let at: usize = ids[k];
        let ghost held = nodes@;
        let ghost prefix = want.take(k as int);
        let ghost longer = want.take(k + 1);
        assert(devs[want[k as int].0 as int] == devs[at as int]);
        devices.push(DeviceId(at as u32));
        assert(devices@ =~= longer);
        if !circuit.devices[at].is_linear() {
            linear = false;
        }
        let own = circuit.devices[at].nodes();
        let mut i: usize = 0;
        while i < own.len()
            invariant
                i <= own@.len(),
                ascending(nodes@),
                forall|n: NodeId|
                    #[trigger] nodes@.contains(n) <==> held.contains(n) || (n.0 != 0 && own@.take(
                        i as int,
                    ).contains(n)),
            decreases own@.len() - i,
        {
            let ghost part = own@.take(i as int);
            let ghost more = own@.take(i + 1);
            let ghost now = nodes@;
            assert(more =~= part.push(own@[i as int]));
            assert forall|n: NodeId| #[trigger] more.contains(n) <==> part.contains(n) || n
                == own@[i as int] by {
                if part.contains(n) {
                    let j = choose|j: int| 0 <= j < part.len() && part[j] == n;
                    assert(more[j] == n);
                }
                if n == own@[i as int] {
                    assert(more[i as int] == n);
                }
                if more.contains(n) {
                    let j = choose|j: int| 0 <= j < more.len() && more[j] == n;
                    if j < i {
                        assert(part[j] == n);
                    }
                }
            }
            if own[i].0 != 0 {
                ids::insert(&mut nodes, own[i]);
            }
            assert forall|n: NodeId|
                #[trigger] nodes@.contains(n) <==> held.contains(n) || (n.0 != 0 && more.contains(
                    n,
                )) by {
                assert(now.contains(n) <==> held.contains(n) || (n.0 != 0 && part.contains(n)));
                assert(more.contains(n) <==> part.contains(n) || n == own@[i as int]);
            }
            i = i + 1;
        }
        assert(own@.take(i as int) =~= own@);
        assert forall|n: NodeId|
            #[trigger] nodes@.contains(n) <==> n.0 != 0 && touches(devs, longer, n) by {
            assert(held.contains(n) <==> n.0 != 0 && touches(devs, prefix, n));
            if touches(devs, prefix, n) {
                let j = choose|j: int|
                    0 <= j < prefix.len() && #[trigger] devs[prefix[j].0 as int].spec_nodes().contains(
                        n,
                    );
                assert(longer[j] == prefix[j]);
                assert(devs[longer[j].0 as int].spec_nodes().contains(n));
            }
            if own@.contains(n) {
                assert(longer[k as int] == want[k as int]);
                assert(devs[longer[k as int].0 as int].spec_nodes().contains(n));
            }
            if touches(devs, longer, n) {
                let j = choose|j: int|
                    0 <= j < longer.len() && #[trigger] devs[longer[j].0 as int].spec_nodes().contains(
                        n,
                    );
                if j < k {
                    assert(longer[j] == prefix[j]);
                    assert(devs[prefix[j].0 as int].spec_nodes().contains(n));
                }
            }
        }
        k = k + 1;
    }
    assert(want.take(k as int) =~= want);
    Island { devices, nodes, linear, boundary_in: Vec::new() }
}

/// The first node that is neither ground nor pinned.
fn first_free(nodes: &Vec<NodeId>, pinned: &Vec<bool>) -> (r: Option<usize>)
    requires
        forall|i: int| 0 <= i < nodes@.len() ==> nodes@[i].0 < pinned@.len(),
    ensures
        match r {
            Some(at) => free_upto(nodes@, pinned@, nodes@.len()).len() > 0 && free_upto(
                nodes@,
                pinned@,
                nodes@.len(),
            )[0] == at && at < pinned@.len(),
            None => free_upto(nodes@, pinned@, nodes@.len()).len() == 0,
        },
{
    let mut i: usize = 0;
    while i < nodes.len()
        invariant
            i <= nodes@.len(),
            forall|i: int| 0 <= i < nodes@.len() ==> nodes@[i].0 < pinned@.len(),
            free_upto(nodes@, pinned@, i as nat).len() == 0,
        decreases nodes@.len() - i,
    {
        let n = nodes[i];
        if n.0 != 0 && !pinned[n.0 as usize] {
            proof {
                assert(free_upto(nodes@, pinned@, (i + 1) as nat)[0] == n.0);
                lemma_free_prefix(nodes@, pinned@, (i + 1) as nat, nodes@.len());
            }
            return Some(n.0 as usize);
        }
        i = i + 1;
    }
    None
}

proof fn lemma_free_prefix(nodes: Seq<NodeId>, pinned: Seq<bool>, a: nat, b: nat)
    requires
        a <= b,
        free_upto(nodes, pinned, a).len() > 0,
    ensures
        free_upto(nodes, pinned, b).len() > 0,
        free_upto(nodes, pinned, b)[0] == free_upto(nodes, pinned, a)[0],
    decreases b,
{
    if a < b {
        lemma_free_prefix(nodes, pinned, a, (b - 1) as nat);
    }
}

/// The device numbers of a bucket, as ids.
spec fn as_ids(v: Seq<usize>) -> Seq<DeviceId> {
    Seq::new(v.len(), |k: int| DeviceId(v[k] as u32))
}

/// The devices of every label, in circuit order.
fn sort_out<S: Scalar>(circuit: &Circuit<S>, pinned: &Vec<bool>, n: usize) -> (r: Vec<Vec<usize>>)
    requires
        circuit.wf(),
        n < usize::MAX,
        nodes_within(circuit.devices@, n as nat),
        pinned@ == pinned_nodes(circuit.devices@, n as nat),
        pinned@.len() == n + 1,
    ensures
        r@.len() == n + 1,
        forall|key: int|
            #![trigger r@[key]]
            0 <= key <= n ==> as_ids(r@[key]@) == members(
                circuit.devices@,
                pinned@,
                component_labels(circuit.devices@, n as nat),
                key,
                circuit.devices@.len(),
            ) && forall|k: int| 0 <= k < r@[key]@.len() ==> r@[key]@[k] < circuit.devices@.len(),
{
    let ghost devs = circuit.devices@;
    let ghost labels = component_labels(devs, n as nat);
    let mut uf = label(&circuit.devices, pinned, n);
    let mut buckets: Vec<Vec<usize>> = Vec::new();
    let mut i: usize = 0;
    while i <= n
        invariant
            i <= n + 1,
            n < usize::MAX,
            buckets@.len() == i,
            forall|key: int| 0 <= key < i ==> (#[trigger] buckets@[key])@.len() == 0,
        decreases n + 1 - i,
    {
        buckets.push(Vec::new());
        i = i + 1;
    }
    assert forall|key: int| 0 <= key <= n implies as_ids(#[trigger] buckets@[key]@) == members(
        devs,
        pinned@,
        labels,
        key,
        0,
    ) by {
        assert(as_ids(buckets@[key]@) =~= members(devs, pinned@, labels, key, 0));
    }
    let mut d: usize = 0;
    while d < circuit.devices.len()
        invariant
            d <= devs.len(),
            devs == circuit.devices@,
            devs.len() <= u32::MAX,
            n < usize::MAX,
            nodes_within(devs, n as nat),
            pinned@.len() == n + 1,
            uf.wf(),
            uf.labels() == labels,
            labels.len() == n + 1,
            buckets@.len() == n + 1,
            forall|key: int|
                #![trigger buckets@[key]]
                0 <= key <= n ==> as_ids(buckets@[key]@) == members(
                    devs,
                    pinned@,
                    labels,
                    key,
                    d as nat,
                ) && forall|k: int| 0 <= k < buckets@[key]@.len() ==> buckets@[key]@[k] < d,
        decreases devs.len() - d,
    {
        let ghost held = buckets@;
        let ghost dev = devs[d as int];
        let is_source: bool = match &circuit.devices[d] {
            Device::Vsource { .. } => true,
            _ => false,
        };
        if !is_source {
            let nodes = circuit.devices[d].nodes();
            assert forall|i: int| 0 <= i < nodes@.len() implies nodes@[i].0 < pinned@.len() by {
                assert(devs[d as int].spec_nodes()[i].0 <= n);
            }
            match first_free(&nodes, pinned) {
                Some(at) => {
                    let key: usize = uf.find(at);
                    buckets[key].push(d);
                    assert(belongs(dev, pinned@, labels, key as int));
                    assert forall|other: int|
                        #![trigger buckets@[other]]
                        0 <= other <= n implies as_ids(buckets@[other]@) == members(
                        devs,
                        pinned@,
                        labels,
                        other,
                        (d + 1) as nat,
                    ) && forall|k: int| 0 <= k < buckets@[other]@.len() ==> buckets@[other]@[k] < d
                        + 1 by {
                        assert(as_ids(held[other]@) == members(
                            devs,
                            pinned@,
                            labels,
                            other,
                            d as nat,
                        ));
                        if other == key {
                            assert(buckets@[other]@ == held[other]@.push(d));
                            assert(as_ids(buckets@[other]@) =~= as_ids(held[other]@).push(
                                DeviceId(d as u32),
                            ));
                        } else {
                            assert(buckets@[other] == held[other]);
                            assert(!belongs(dev, pinned@, labels, other));
                        }
                    }
                },
                None => {},
            }
        }
        d = d + 1;
    }
    buckets
}

/// The nodes that more than one island touches.
fn find_shared(islands: &Vec<Island>, n: usize) -> (r: Vec<bool>)
    requires
        n < usize::MAX,
        forall|i: int, k: int|
            #![trigger islands@[i].nodes@[k]]
            0 <= i < islands@.len() && 0 <= k < islands@[i].nodes@.len()
                ==> islands@[i].nodes@[k].0 <= n,
        forall|i: int| 0 <= i < islands@.len() ==> ascending((#[trigger] islands@[i]).nodes@),
    ensures
        r@.len() == n + 1,
        forall|m: NodeId| m.0 <= n ==> #[trigger] r@[m.0 as int] == shared(
            islands@,
            islands@.len() as int,
            m,
        ),
{
    let ghost isls = islands@;
    let mut seen: Vec<bool> = Vec::new();
    let mut twice: Vec<bool> = Vec::new();
    let mut i: usize = 0;
    while i <= n
        invariant
            i <= n + 1,
            n < usize::MAX,
            seen@.len() == i,
            twice@.len() == i,
            forall|k: int| 0 <= k < i ==> !seen@[k] && !twice@[k],
        decreases n + 1 - i,
    {
        seen.push(false);
        twice.push(false);
        i = i + 1;
    }
    let mut a: usize = 0;
    while a < islands.len()
        invariant
            a <= isls.len(),
            isls == islands@,
            n < usize::MAX,
            seen@.len() == n + 1,
            twice@.len() == n + 1,
            forall|i: int, k: int|
                #![trigger isls[i].nodes@[k]]
                0 <= i < isls.len() && 0 <= k < isls[i].nodes@.len() ==> isls[i].nodes@[k].0 <= n,
            forall|i: int| 0 <= i < isls.len() ==> ascending((#[trigger] isls[i]).nodes@),
            forall|m: NodeId|
                m.0 <= n ==> (#[trigger] seen@[m.0 as int] <==> exists|i: int|
                    0 <= i < a && (#[trigger] isls[i]).nodes@.contains(m)),
            forall|m: NodeId|
                m.0 <= n ==> #[trigger] twice@[m.0 as int] == shared(isls, a as int, m),
        decreases isls.len() - a,
    {
        let ghost seen0 = seen@;
        let ghost twice0 = twice@;
        let ghost own = isls[a as int].nodes@;
        let mut k: usize = 0;
        while k < islands[a].nodes.len()
            invariant
                a < isls.len(),
                isls == islands@,
                own == isls[a as int].nodes@,
                k <= own.len(),
                ascending(own),
                seen@.len() == n + 1,
                twice@.len() == n + 1,
                seen0.len() == n + 1,
                twice0.len() == n + 1,
                forall|j: int| 0 <= j < own.len() ==> (#[trigger] own[j]).0 <= n,
                forall|m: NodeId|
                    m.0 <= n ==> (#[trigger] seen@[m.0 as int] <==> seen0[m.0 as int] || own.take(
                        k as int,
                    ).contains(m)),
                forall|m: NodeId|
                    m.0 <= n ==> (#[trigger] twice@[m.0 as int] <==> twice0[m.0 as int] || (
                    seen0[m.0 as int] && own.take(k as int).contains(m))),
            decreases own.len() - k,
        {
            let node = islands[a].nodes[k];
            let ghost part = own.take(k as int);
            let ghost more = own.take(k + 1);
            assert(node == own[k as int]);
            assert(more =~= part.push(node));
            assert(!part.contains(node)) by {
                if part.contains(node) {
                    let j = choose|j: int| 0 <= j < part.len() && part[j] == node;
                    assert(own[j].0 < own[k as int].0);
                }
            }
            assert forall|m: NodeId| #[trigger] more.contains(m) <==> part.contains(m) || m
                == node by {
                if part.contains(m) {
                    let j = choose|j: int| 0 <= j < part.len() && part[j] == m;
                    assert(more[j] == m);
                }
                if m == node {
                    assert(more[k as int] == m);
                }
                if more.contains(m) {
                    let j = choose|j: int| 0 <= j < more.len() && more[j] == m;
                    if j < k {
                        assert(part[j] == m);
                    }
                }
            }
            let at: usize = node.0 as usize;
            let ghost s1 = seen@;
            let ghost t1 = twice@;
            if seen[at] {
                twice.set(at, true);
            } else {
                seen.set(at, true);
            }
            assert forall|m: NodeId|
                m.0 <= n implies (#[trigger] seen@[m.0 as int] <==> seen0[m.0 as int]
                || more.contains(m)) by {
                assert(s1[m.0 as int] <==> seen0[m.0 as int] || part.contains(m));
                assert(s1[node.0 as int] <==> seen0[node.0 as int] || part.contains(node));
                assert(more.contains(m) <==> part.contains(m) || m == node);
            }
            assert forall|m: NodeId|
                m.0 <= n implies (#[trigger] twice@[m.0 as int] <==> twice0[m.0 as int] || (
            seen0[m.0 as int] && more.contains(m))) by {
                assert(t1[m.0 as int] <==> twice0[m.0 as int] || (seen0[m.0 as int]
                    && part.contains(m)));
                assert(s1[node.0 as int] <==> seen0[node.0 as int] || part.contains(node));
                assert(more.contains(m) <==> part.contains(m) || m == node);
            }
            k = k + 1;
        }
        assert(own.take(k as int) =~= own);
        assert forall|m: NodeId|
            m.0 <= n implies (#[trigger] seen@[m.0 as int] <==> exists|i: int|
            0 <= i < a + 1 && (#[trigger] isls[i]).nodes@.contains(m)) by {
            assert(seen0[m.0 as int] <==> exists|i: int|
                0 <= i < a && (#[trigger] isls[i]).nodes@.contains(m));
            if own.contains(m) {
                assert(isls[a as int].nodes@.contains(m));
            }
        }
        assert forall|m: NodeId|
            m.0 <= n implies #[trigger] twice@[m.0 as int] == shared(isls, a + 1, m) by {
            assert(twice0[m.0 as int] == shared(isls, a as int, m));
            assert(seen0[m.0 as int] <==> exists|i: int|
                0 <= i < a && (#[trigger] isls[i]).nodes@.contains(m));
            if shared(isls, a as int, m) {
                let (i, j) = choose|i: int, j: int|
                    #![trigger isls[i].nodes@.contains(m), isls[j].nodes@.contains(m)]
                    0 <= i < j < a && isls[i].nodes@.contains(m) && isls[j].nodes@.contains(m);
                assert(isls[i].nodes@.contains(m) && isls[j].nodes@.contains(m));
            }
            if seen0[m.0 as int] && own.contains(m) {
                let i = choose|i: int| 0 <= i < a && (#[trigger] isls[i]).nodes@.contains(m);
                assert(isls[i].nodes@.contains(m) && isls[a as int].nodes@.contains(m));
            }
            if shared(isls, a + 1, m) && !shared(isls, a as int, m) {
                let (i, j) = choose|i: int, j: int|
                    #![trigger isls[i].nodes@.contains(m), isls[j].nodes@.contains(m)]
                    0 <= i < j < a + 1 && isls[i].nodes@.contains(m) && isls[j].nodes@.contains(m);
                if j < a {
                    assert(isls[i].nodes@.contains(m) && isls[j].nodes@.contains(m));
                }
                assert(j == a);
            }
        }
        a = a + 1;
    }
    twice
}

/// What stays of the islands while their boundaries are filled in.
spec fn same_but_boundary(a: Seq<Island>, b: Seq<Island>) -> bool {
    &&& a.len() == b.len()
    &&& forall|i: int|
        #![trigger a[i]]
        #![trigger b[i]]
        0 <= i < a.len() ==> a[i].devices@ == b[i].devices@ && a[i].nodes@ == b[i].nodes@
            && a[i].linear == b[i].linear
}

proof fn lemma_same_shared(a: Seq<Island>, b: Seq<Island>, count: int, n: NodeId)
    requires
        same_but_boundary(a, b),
        count <= a.len(),
    ensures
        shared(a, count, n) == shared(b, count, n),
{
    if shared(a, count, n) {
        let (i, j) = choose|i: int, j: int|
            #![trigger a[i].nodes@.contains(n), a[j].nodes@.contains(n)]
            0 <= i < j < count && a[i].nodes@.contains(n) && a[j].nodes@.contains(n);
        assert(b[i].nodes@.contains(n) && b[j].nodes@.contains(n));
    }
    if shared(b, count, n) {
        let (i, j) = choose|i: int, j: int|
            #![trigger b[i].nodes@.contains(n), b[j].nodes@.contains(n)]
            0 <= i < j < count && b[i].nodes@.contains(n) && b[j].nodes@.contains(n);
        assert(a[i].nodes@.contains(n) && a[j].nodes@.contains(n));
    }
}

/// Fill in every island's boundary.
fn bound(islands: Vec<Island>, pinned: &Vec<bool>, n: usize) -> (r: Vec<Island>)
    requires
        n < usize::MAX,
        pinned@.len() == n + 1,
        forall|i: int, k: int|
            #![trigger islands@[i].nodes@[k]]
            0 <= i < islands@.len() && 0 <= k < islands@[i].nodes@.len()
                ==> islands@[i].nodes@[k].0 <= n,
        forall|i: int| 0 <= i < islands@.len() ==> ascending((#[trigger] islands@[i]).nodes@),
    ensures
        same_but_boundary(islands@, r@),
        forall|i: int|
            0 <= i < r@.len() ==> has_boundary(r@, pinned@, #[trigger] r@[i]),
{
    let twice = find_shared(&islands, n);
    let ghost base = islands@;
    let mut out: Vec<Island> = islands;
    let mut a: usize = 0;
    while a < out.len()
        invariant
            a <= out@.len(),
            same_but_boundary(base, out@),
            pinned@.len() == n + 1,
            twice@.len() == n + 1,
            forall|m: NodeId| m.0 <= n ==> #[trigger] twice@[m.0 as int] == shared(
                base,
                base.len() as int,
                m,
            ),
            forall|i: int, k: int|
                #![trigger base[i].nodes@[k]]
                0 <= i < base.len() && 0 <= k < base[i].nodes@.len() ==> base[i].nodes@[k].0 <= n,
            forall|i: int| 0 <= i < base.len() ==> ascending((#[trigger] base[i]).nodes@),
            forall|i: int| 0 <= i < a ==> has_boundary(base, pinned@, #[trigger] out@[i]),
        decreases out@.len() - a,
    {
        let ghost own = base[a as int].nodes@;
        assert(out@[a as int].nodes@ == own);
        let ghost before = out@;
        let mut bin: Vec<NodeId> = Vec::new();
        let mut k: usize = 0;
        while k < out[a].nodes.len()
            invariant
                a < out@.len(),
                out@ == before,
                out@[a as int].nodes@ == own,
                k <= own.len(),
                pinned@.len() == n + 1,
                twice@.len() == n + 1,
                forall|j: int| 0 <= j < own.len() ==> (#[trigger] own[j]).0 <= n,
                ascending(bin@),
                forall|m: NodeId|
                    #[trigger] bin@.contains(m) <==> own.take(k as int).contains(m) && (
                    pinned@[m.0 as int] || twice@[m.0 as int]),
            decreases own.len() - k,
        {
            let node = out[a].nodes[k];
            let ghost part = own.take(k as int);
            let ghost more = own.take(k + 1);
            let ghost held = bin@;
            assert(node == own[k as int]);
            assert(more =~= part.push(node));
            assert forall|m: NodeId| #[trigger] more.contains(m) <==> part.contains(m) || m
                == node by {
                if part.contains(m) {
                    let j = choose|j: int| 0 <= j < part.len() && part[j] == m;
                    assert(more[j] == m);
                }
                if m == node {
                    assert(more[k as int] == m);
                }
                if more.contains(m) {
                    let j = choose|j: int| 0 <= j < more.len() && more[j] == m;
                    if j < k {
                        assert(part[j] == m);
                    }
                }
            }
            let at: usize = node.0 as usize;
            if pinned[at] || twice[at] {
                ids::insert(&mut bin, node);
            }
            assert forall|m: NodeId|
                #[trigger] bin@.contains(m) <==> more.contains(m) && (pinned@[m.0 as int]
                    || twice@[m.0 as int]) by {
                assert(held.contains(m) <==> part.contains(m) && (pinned@[m.0 as int]
                    || twice@[m.0 as int]));
                assert(more.contains(m) <==> part.contains(m) || m == node);
            }
            k = k + 1;
        }
        assert(own.take(k as int) =~= own);
        out[a].boundary_in = bin;
        proof {
            assert forall|m: NodeId|
                #[trigger] out@[a as int].boundary_in@.contains(m) <==> own.contains(m) && (
                pinned@[m.0 as int] || shared(base, base.len() as int, m)) by {
                if own.contains(m) {
                    let j = choose|j: int| 0 <= j < own.len() && own[j] == m;
                    assert(base[a as int].nodes@[j].0 <= n);
                    assert(twice@[m.0 as int] == shared(base, base.len() as int, m));
                }
            }
            assert(has_boundary(base, pinned@, out@[a as int]));
            assert forall|i: int| 0 <= i < a + 1 implies has_boundary(
                base,
                pinned@,
                #[trigger] out@[i],
            ) by {
                if i < a {
                    assert(out@[i] == before[i]);
                }
            }
        }
        a = a + 1;
    }
    proof {
        assert forall|i: int| 0 <= i < out@.len() implies has_boundary(
            out@,
            pinned@,
            #[trigger] out@[i],
        ) by {
            assert(has_boundary(base, pinned@, out@[i]));
            assert forall|m: NodeId|
                #[trigger] out@[i].boundary_in@.contains(m) <==> out@[i].nodes@.contains(m) && (
                pinned@[m.0 as int] || shared(out@, out@.len() as int, m)) by {
                lemma_same_shared(base, out@, out@.len() as int, m);
            }
        }
    }
    out
}

impl Partition {
    /// Split a circuit into islands.
    ///
    /// Ideal voltage sources are cut points: the nodes they pin, ground first,
    /// connect nothing. What the other devices tie together is an island, linear
    /// when all its devices are.
    pub fn analyze<S: Scalar>(circuit: &Circuit<S>) -> (r: Partition)
        requires
            circuit.wf(),
            circuit.spec_max_node() < usize::MAX,
        ensures
            is_partition(circuit.devices@, circuit.spec_max_node() as nat, r),
    {
        let ghost devs = circuit.devices@;
        let n: usize = circuit.max_node() as usize;
        proof {
            circuit.lemma_names();
            lemma_greatest_used(devs, devs.len(), circuit.node_names().len() - 1);
            assert(nodes_within(devs, n as nat));
            lemma_pinned_len(devs, n as nat);
        }
        let pinned = pin(&circuit.devices, n);
        let ghost labels = component_labels(devs, n as nat);
        let mut sources: Vec<DeviceId> = Vec::new();
        let mut d: usize = 0;
        while d < circuit.devices.len()
            invariant
                d <= devs.len(),
                devs == circuit.devices@,
                devs.len() <= u32::MAX,
                sources@ == source_ids(devs, d as nat),
            decreases devs.len() - d,
        {
            match &circuit.devices[d] {
                Device::Vsource { .. } => {
                    sources.push(DeviceId(d as u32));
                },
                _ => {},
            }
            d = d + 1;
        }
        let buckets = sort_out(circuit, &pinned, n);
        let mut islands: Vec<Island> = Vec::new();
        let mut key: usize = 0;
        while key <= n
            invariant
                key <= n + 1,
                n < usize::MAX,
                devs == circuit.devices@,
                devs.len() <= u32::MAX,
                buckets@.len() == n + 1,
                forall|k: int|
                    #![trigger buckets@[k]]
                    0 <= k <= n ==> as_ids(buckets@[k]@) == members(
                        devs,
                        pinned@,
                        labels,
                        k,
                        devs.len(),
                    ) && forall|j: int| 0 <= j < buckets@[k]@.len() ==> buckets@[k]@[j] < devs.len(),
                islands@.len() == keys(devs, pinned@, labels, key as nat).len(),
                forall|i: int|
                    #![trigger islands@[i]]
                    0 <= i < islands@.len() ==> holds_devices(
                        devs,
                        members(
                            devs,
                            pinned@,
                            labels,
                            keys(devs, pinned@, labels, key as nat)[i],
                            devs.len(),
                        ),
                        islands@[i],
                    ),
            decreases n + 1 - key,
        {
            let ghost before = keys(devs, pinned@, labels, key as nat);
            let ghost after = keys(devs, pinned@, labels, (key + 1) as nat);
            assert(as_ids(buckets@[key as int]@) == members(
                devs,
                pinned@,
                labels,
                key as int,
                devs.len(),
            ));
            if buckets[key].len() > 0 {
                let isl = gather(circuit, &buckets[key]);
                islands.push(isl);
                assert(after == before.push(key as int));
            } else {
                assert(after == before);
            }
            key = key + 1;
        }
        let ghost found = islands@;
        proof {
            assert forall|i: int, k: int|
                #![trigger found[i].nodes@[k]]
                0 <= i < found.len() && 0 <= k < found[i].nodes@.len() implies found[i].nodes@[k].0
                <= n by {
                let ids = members(
                    devs,
                    pinned@,
                    labels,
                    keys(devs, pinned@, labels, (n + 1) as nat)[i],
                    devs.len(),
                );
                assert(holds_devices(devs, ids, found[i]));
                let m = found[i].nodes@[k];
                assert(found[i].nodes@.contains(m));
                let j = choose|j: int|
                    0 <= j < ids.len() && #[trigger] devs[ids[j].0 as int].spec_nodes().contains(m);
                lemma_members(
                    devs,
                    pinned@,
                    labels,
                    keys(devs, pinned@, labels, (n + 1) as nat)[i],
                    devs.len(),
                );
                let at = choose|at: int|
                    0 <= at < devs[ids[j].0 as int].spec_nodes().len()
                        && devs[ids[j].0 as int].spec_nodes()[at] == m;
                assert(devs[ids[j].0 as int].spec_nodes()[at].0 <= n);
            }
        }
        let done = bound(islands, &pinned, n);
        let r = Partition { islands: done, sources, n_nodes: n };
        proof {
            let ks = keys(devs, pinned@, labels, (n + 1) as nat);
            assert forall|i: int| #![trigger r.islands@[i]] 0 <= i < ks.len() implies holds_devices(
                devs,
                members(devs, pinned@, labels, ks[i], devs.len()),
                r.islands@[i],
            ) && has_boundary(r.islands@, pinned@, r.islands@[i]) by {
                assert(holds_devices(
                    devs,
                    members(devs, pinned@, labels, ks[i], devs.len()),
                    found[i],
                ));
            }
        }
        r
    }
}

/// How many of the first `count` islands are linear.
pub open spec fn linear_islands(islands: Seq<Island>, count: nat) -> nat
    decreases count,
{
    if count == 0 {
        0
    } else {
        let rest = linear_islands(islands, (count - 1) as nat);
        if islands[count - 1].linear {
            rest + 1
        } else {
            rest
        }
    }
}

/// The one-line summary of a partition.
pub open spec fn summary_text(p: Partition) -> Seq<char> {
    let total = p.islands@.len();
    let linear = linear_islands(p.islands@, total);
    decimal_digits(total) + " islands ("@ + decimal_digits(linear) + " linear, "@ + decimal_digits(
        (total - linear) as nat,
    ) + " nonlinear), "@ + decimal_digits(p.sources@.len()) + " cut sources, "@ + decimal_digits(
        p.n_nodes as nat,
    ) + " nodes"@
}

impl Partition {
    /// Whether some island is linear and holds a device.
    pub fn has_linear_island(&self) -> (r: bool)
        ensures
            r <==> exists|i: int|
                0 <= i < self.islands@.len() && (#[trigger] self.islands@[i]).linear
                    && self.islands@[i].devices@.len() > 0,
    {
        let mut i: usize = 0;
        while i < self.islands.len()
            invariant
                i <= self.islands@.len(),
                forall|j: int|
                    0 <= j < i ==> !((#[trigger] self.islands@[j]).linear
                        && self.islands@[j].devices@.len() > 0),
            decreases self.islands@.len() - i,
        {
            if self.islands[i].linear && self.islands[i].devices.len() > 0 {
                return true;
            }
            i = i + 1;
        }
        false
    }

    fn linear_count(&self) -> (r: usize)
        ensures
            r == linear_islands(self.islands@, self.islands@.len()),
            r <= self.islands@.len(),
    {
        let mut count: usize = 0;
        let mut i: usize = 0;
        while i < self.islands.len()
            invariant
                i <= self.islands@.len(),
                count == linear_islands(self.islands@, i as nat),
                count <= i,
            decreases self.islands@.len() - i,
        {
            if self.islands[i].linear {
                count = count + 1;
            }
            i = i + 1;
        }
        count
    }

    /// Number of nonlinear islands.
    pub fn nonlinear_count(&self) -> (r: usize)
        ensures
            r == self.islands@.len() - linear_islands(self.islands@, self.islands@.len()),
    {
        self.islands.len() - self.linear_count()
    }

    /// A one-line summary for diagnostics.
    pub fn summary(&self) -> (r: String)
        ensures
            r@ == summary_text(*self),
    {
        let lin: usize = self.linear_count();
        let nl: usize = self.nonlinear_count();
        let mut out = decimal(self.islands.len());
        out.append(" islands (");
        out.append(decimal(lin).as_str());
        out.append(" linear, ");
        out.append(decimal(nl).as_str());
        out.append(" nonlinear), ");
        out.append(decimal(self.sources.len()).as_str());
        out.append(" cut sources, ");
        out.append(decimal(self.n_nodes).as_str());
        out.append(" nodes");
        out
    }
}

proof fn lemma_labels_of_free<S>(devices: Seq<Device<S>>, n: nat, d: int, x: int)
    requires
        nodes_within(devices, n),
        0 <= d < devices.len(),
        free_nodes(devices[d], pinned_nodes(devices, n)).contains(x),
    ensures
        0 <= x <= n,
        free_nodes(devices[d], pinned_nodes(devices, n)).len() > 0,
        component_labels(devices, n)[x] == component_labels(
            devices,
            n,
        )[free_nodes(devices[d], pinned_nodes(devices, n))[0]],
{
    let pinned = pinned_nodes(devices, n);
    let free = free_nodes(devices[d], pinned);
    lemma_pinned_len(devices, n);
    assert forall|i: int| 0 <= i < devices[d].spec_nodes().len() implies (
    #[trigger] devices[d].spec_nodes()[i]).0 <= n by {}
    lemma_free_within(devices[d].spec_nodes(), pinned, devices[d].spec_nodes().len(), n);
    let i = choose|i: int| 0 <= i < free.len() && free[i] == x;
    assert(free[i] == x);
    assert(free.contains(free[0]));
    assert(adjacent(devices, pinned, x, free[0]));
    let path = seq![x, free[0]];
    assert(is_walk(devices, pinned, path));
    assert(path.last() == free[0]);
    assert(connected(devices, pinned, x, free[0]));
    law_labels_are_components(devices, n, x, free[0]);
}

/// A device other than a voltage source that has a free node belongs to exactly
/// one island.
pub proof fn law_one_island_per_device<S>(
    devices: Seq<Device<S>>,
    n: nat,
    p: Partition,
    d: int,
) -> (home: int)
    requires
        devices.len() <= u32::MAX,
        nodes_within(devices, n),
        is_partition(devices, n, p),
        0 <= d < devices.len(),
        free_nodes(devices[d], pinned_nodes(devices, n)).len() > 0,
    ensures
        0 <= home < p.islands@.len(),
        forall|i: int|
            0 <= i < p.islands@.len() ==> ((#[trigger] p.islands@[i]).devices@.contains(
                DeviceId(d as u32),
            ) <==> i == home),
{
    let pinned = pinned_nodes(devices, n);
    let labels = component_labels(devices, n);
    let ks = keys(devices, pinned, labels, n + 1);
    let first = free_nodes(devices[d], pinned)[0];
    let key = labels[first];
    assert(free_nodes(devices[d], pinned).contains(first));
    lemma_labels_of_free(devices, n, d, first);
    law_labels_are_components(devices, n, first, first);
    lemma_members(devices, pinned, labels, key, devices.len());
    assert(belongs(devices[d], pinned, labels, key));
    assert(members(devices, pinned, labels, key, devices.len()).contains(DeviceId(d as u32)));
    lemma_keys(devices, pinned, labels, n + 1);
    assert(members(devices, pinned, labels, key, devices.len()).len() > 0);
    assert(ks.contains(key));
    let home = choose|i: int| 0 <= i < ks.len() && ks[i] == key;
    assert forall|i: int| 0 <= i < p.islands@.len() implies ((
    #[trigger] p.islands@[i]).devices@.contains(DeviceId(d as u32)) <==> i == home) by {
        assert(holds_devices(
            devices,
            members(devices, pinned, labels, ks[i], devices.len()),
            p.islands@[i],
        ));
        lemma_members(devices, pinned, labels, ks[i], devices.len());
        if p.islands@[i].devices@.contains(DeviceId(d as u32)) {
            let all = members(devices, pinned, labels, ks[i], devices.len());
            let k = choose|k: int| 0 <= k < all.len() && all[k] == DeviceId(d as u32);
            assert(belongs(devices[all[k].0 as int], pinned, labels, ks[i]));
            assert(ks[i] == key);
            if i < home {
                assert(ks[i] < ks[home]);
            } else if home < i {
                assert(ks[home] < ks[i]);
            }
        }
    }
    home
}

/// An island is linear exactly when it holds nothing but resistors, capacitors,
/// inductors and independent sources: a single diode, transistor, switch, amplifier,
/// comparator, controlled or behavioral source taints the whole of it.
pub proof fn law_one_nonlinear_device_taints_its_island<S>(
    devices: Seq<Device<S>>,
    n: nat,
    p: Partition,
    i: int,
)
    requires
        is_partition(devices, n, p),
        0 <= i < p.islands@.len(),
    ensures
        p.islands@[i].linear <==> forall|k: int|
            0 <= k < p.islands@[i].devices@.len() ==> {
                let dev = devices[(#[trigger] p.islands@[i].devices@[k]).0 as int];
                dev is Resistor || dev is Capacitor || dev is Inductor || dev is Vsource
                    || dev is Isource
            },
{
    let isl = p.islands@[i];
    let ids = isl.devices@;
    assert(holds_devices(devices, ids, isl));
    if isl.linear {
        assert forall|k: int| 0 <= k < ids.len() implies {
            let dev = devices[(#[trigger] ids[k]).0 as int];
            dev is Resistor || dev is Capacitor || dev is Inductor || dev is Vsource
                || dev is Isource
        } by {
            assert(devices[ids[k].0 as int].spec_is_linear());
        }
    } else {
        let k = choose|k: int|
            0 <= k < ids.len() && !(#[trigger] devices[ids[k].0 as int].spec_is_linear());
        assert(ids[k] == ids[k]);
    }
}

/// Islands meet only in pinned nodes: an island owns every other node it touches
/// alone, so its boundary is exactly its pinned nodes.
pub proof fn law_only_pinned_nodes_are_shared<S>(
    devices: Seq<Device<S>>,
    n: nat,
    p: Partition,
    i: int,
    node: NodeId,
)
    requires
        devices.len() <= u32::MAX,
        nodes_within(devices, n),
        is_partition(devices, n, p),
        0 <= i < p.islands@.len(),
        p.islands@[i].nodes@.contains(node),
    ensures
        shared(p.islands@, p.islands@.len() as int, node) ==> pinned_nodes(
            devices,
            n,
        )[node.0 as int],
        p.islands@[i].boundary_in@.contains(node) <==> pinned_nodes(devices, n)[node.0 as int],
{
    let pinned = pinned_nodes(devices, n);
    let labels = component_labels(devices, n);
    let ks = keys(devices, pinned, labels, n + 1);
    assert(has_boundary(p.islands@, pinned, p.islands@[i]));
    if shared(p.islands@, p.islands@.len() as int, node) && !pinned[node.0 as int] {
        let (a, b) = choose|a: int, b: int|
            #![trigger p.islands@[a].nodes@.contains(node), p.islands@[b].nodes@.contains(node)]
            0 <= a < b < p.islands@.len() && p.islands@[a].nodes@.contains(node)
                && p.islands@[b].nodes@.contains(node);
        lemma_island_label(devices, n, p, a, node);
        lemma_island_label(devices, n, p, b, node);
        lemma_keys(devices, pinned, labels, n + 1);
        assert(ks[a] < ks[b]);
    }
}

/// A free node an island touches carries the island's label.
proof fn lemma_island_label<S>(
    devices: Seq<Device<S>>,
    n: nat,
    p: Partition,
    i: int,
    node: NodeId,
)
    requires
        devices.len() <= u32::MAX,
        nodes_within(devices, n),
        is_partition(devices, n, p),
        0 <= i < p.islands@.len(),
        p.islands@[i].nodes@.contains(node),
        !pinned_nodes(devices, n)[node.0 as int],
    ensures
        component_labels(devices, n)[node.0 as int] == keys(
            devices,
            pinned_nodes(devices, n),
            component_labels(devices, n),
            n + 1,
        )[i],
{
    let pinned = pinned_nodes(devices, n);
    let labels = component_labels(devices, n);
    let ks = keys(devices, pinned, labels, n + 1);
    let ids = members(devices, pinned, labels, ks[i], devices.len());
    assert(holds_devices(devices, ids, p.islands@[i]));
    let k = choose|k: int|
        0 <= k < ids.len() && #[trigger] devices[ids[k].0 as int].spec_nodes().contains(node);
    lemma_members(devices, pinned, labels, ks[i], devices.len());
    let d = ids[k].0 as int;
    assert(belongs(devices[d], pinned, labels, ks[i]));
    let nodes = devices[d].spec_nodes();
    let at = choose|at: int| 0 <= at < nodes.len() && nodes[at] == node;
    lemma_free_contains(nodes, pinned, nodes.len(), at);
    lemma_labels_of_free(devices, n, d, node.0 as int);
}

proof fn lemma_free_contains(nodes: Seq<NodeId>, pinned: Seq<bool>, count: nat, at: int)
    requires
        0 <= at < count <= nodes.len(),
        nodes[at].0 != 0,
        !pinned[nodes[at].0 as int],
    ensures
        free_upto(nodes, pinned, count).contains(nodes[at].0 as int),
    decreases count,
{
    let all = free_upto(nodes, pinned, count);
    if at == count - 1 {
        assert(all.last() == nodes[at].0);
    } else {
        lemma_free_contains(nodes, pinned, (count - 1) as nat, at);
        let rest = free_upto(nodes, pinned, (count - 1) as nat);
        let k = choose|k: int| 0 <= k < rest.len() && rest[k] == nodes[at].0;
        assert(all[k] == nodes[at].0);
    }
}

} // verus!
