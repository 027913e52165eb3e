//! An island as a circuit of its own, its boundary nodes pinned by sources.
use vstd::prelude::*;

use crate::circuit::{lemma_greatest_used, Circuit, Device, DeviceId, NodeId, SourceKind};
use crate::duplicate::{lemma_redrawn_controls, redrawn, rewired};
use crate::partition::analyze::Island;
use crate::scalar::Scalar;
use crate::subcircuit::{
    interned, interned_all, lemma_digits_injective, lemma_ground_listed, lemma_index_of,
    lemma_interned_all, lemma_local_ids_stay, lemma_mentions_grow, lemma_node_list,
    lemma_push_distinct, local_id, local_ids, mentions, node_list,
};
use crate::system::couplings_resolve;
use crate::text::{decimal, decimal_digits};

verus! {

/// What an island calls a node.
pub open spec fn island_name(n: NodeId) -> Seq<char> {
    if n.0 == 0 {
        "0"@
    } else {
        "n"@ + decimal_digits(n.0 as nat)
    }
}

proof fn lemma_island_names(a: NodeId, b: NodeId)
    requires
        a != b,
    ensures
        island_name(a) != island_name(b),
{
    reveal_strlit("0");
    reveal_strlit("n");
    if a.0 != 0 && b.0 != 0 {
        if island_name(a) == island_name(b) {
            assert(island_name(a).skip(1) =~= decimal_digits(a.0 as nat));
            assert(island_name(b).skip(1) =~= decimal_digits(b.0 as nat));
            lemma_digits_injective(a.0 as nat, b.0 as nat);
        }
    } else if a.0 == 0 {
        assert(island_name(a)[0] == '0');
        assert(island_name(b)[0] == 'n');
    } else {
        assert(island_name(b)[0] == '0');
        assert(island_name(a)[0] == 'n');
    }
}

/// A circuit under construction, with its node map in both directions.
struct Lowering<S> {
    sub: Circuit<S>,
    /// Local node of every node, where it has one.
    g2l: Vec<Option<u32>>,
    /// Node of every local node; ground is first.
    l2g: Vec<NodeId>,
}

impl<S: Scalar> Lowering<S> {
    spec fn wf(&self) -> bool {
        &&& self.sub.wf()
        &&& self.l2g@.len() == self.sub.node_names().len()
        &&& self.l2g@[0] == NodeId(0)
        &&& self.l2g@.no_duplicates()
        &&& forall|i: int|
            0 <= i < self.l2g@.len() ==> #[trigger] self.sub.node_names()[i] == island_name(
                self.l2g@[i],
            )
        &&& forall|i: int|
            0 <= i < self.l2g@.len() ==> (#[trigger] self.l2g@[i]).0 < self.g2l@.len()
                && self.g2l@[self.l2g@[i].0 as int] == Some(i as u32)
        &&& forall|n: u32|
            n < self.g2l@.len() ==> match #[trigger] self.g2l@[n as int] {
                Some(i) => i < self.l2g@.len() && self.l2g@[i as int] == NodeId(n),
                None => true,
            }
    }

    fn new(temp_c: S, nodes: usize) -> (r: Self)
        requires
            0 < nodes,
        ensures
            r.wf(),
            r.g2l@.len() == nodes,
            r.l2g@ == seq![NodeId(0)],
            r.sub.devices@.len() == 0,
            r.sub.temp_c == temp_c,
    {
        let mut sub: Circuit<S> = Circuit::new();
        sub.temp_c = temp_c;
        let mut g2l: Vec<Option<u32>> = Vec::new();
        g2l.push(Some(0));
        while g2l.len() < nodes
            invariant
                1 <= g2l@.len() <= nodes,
                g2l@[0] == Some(0u32),
                forall|n: int| 1 <= n < g2l@.len() ==> #[trigger] g2l@[n] is None,
            decreases nodes - g2l@.len(),
        {
            g2l.push(None);
        }
        let mut l2g: Vec<NodeId> = Vec::new();
        l2g.push(NodeId::ground());
        let r = Lowering { sub, g2l, l2g };
        assert(r.l2g@ =~= seq![NodeId(0)]);
        r
    }

    /// The local number of a node, given on first sight.
    fn map(&mut self, gn: NodeId) -> (r: NodeId)
        requires
            old(self).wf(),
            old(self).l2g@.len() < u32::MAX,
            gn.0 < old(self).g2l@.len(),
        ensures
            final(self).wf(),
            final(self).g2l@.len() == old(self).g2l@.len(),
            final(self).l2g@ == interned(old(self).l2g@, gn),
            final(self).sub.devices == old(self).sub.devices,
            final(self).sub.temp_c == old(self).sub.temp_c,
            r == local_id(final(self).l2g@, gn),
            r.0 < final(self).l2g@.len(),
            final(self).l2g@[r.0 as int] == gn,
    {
        let ghost before = *self;
        assert(NodeId(gn.0) == gn);
        match self.g2l[gn.0 as usize] {
            Some(ln) => {
                proof {
                    assert(self.g2l@[gn.0 as int] == Some(ln));
                    assert(self.l2g@[ln as int] == gn);
                    lemma_index_of(self.l2g@, ln as int);
                }
                return NodeId(ln);
            },
            None => {},
        }
        assert(!self.l2g@.contains(gn)) by {
            if self.l2g@.contains(gn) {
                let i = choose|i: int| 0 <= i < self.l2g@.len() && self.l2g@[i] == gn;
                assert(self.g2l@[self.l2g@[i].0 as int] == Some(i as u32));
            }
        }
        assert(gn.0 != 0) by {
            assert(self.l2g@[0] == NodeId(0));
        }
        proof {
            assert forall|i: int| 0 <= i < before.l2g@.len() implies #[trigger] before.sub.node_names()[i]
                != island_name(gn) by {
                assert(before.l2g@.contains(before.l2g@[i]));
                lemma_island_names(before.l2g@[i], gn);
            }
            assert(!before.sub.node_names().contains(island_name(gn)));
        }
        let mut name = String::from_str("n");
        name.append(decimal(gn.0 as usize).as_str());
        let ln = self.sub.node(name.as_str());
        assert(self.sub.node_names() == before.sub.node_names().push(island_name(gn)));
        self.g2l[gn.0 as usize] = Some(ln.0);
        self.l2g.push(gn);
        proof {
            lemma_push_distinct(before.l2g@, gn);
            lemma_index_of(self.l2g@, ln.0 as int);
            assert forall|i: int| 0 <= i < self.l2g@.len() implies (#[trigger] self.l2g@[i]).0
                < self.g2l@.len() && self.g2l@[self.l2g@[i].0 as int] == Some(i as u32) by {
                if i < before.l2g@.len() {
                    assert(before.g2l@[before.l2g@[i].0 as int] == Some(i as u32));
                    assert(before.l2g@[i] != gn) by {
                        assert(before.l2g@.contains(before.l2g@[i]));
                    }
                }
            }
            assert forall|n: u32| n < self.g2l@.len() implies match #[trigger] self.g2l@[n as int] {
                Some(i) => i < self.l2g@.len() && self.l2g@[i as int] == NodeId(n),
                None => true,
            } by {
                if n != gn.0 {
                    assert(self.g2l@[n as int] == before.g2l@[n as int]);
                }
            }
        }
        ln
    }

    /// Copy a device, on local nodes.
    fn copy(&mut self, dev: &Device<S>)
        requires
            old(self).wf(),
            old(self).l2g@.len() + dev.spec_nodes().len() <= u32::MAX,
            old(self).sub.devices@.len() < u32::MAX,
            forall|i: int|
                0 <= i < dev.spec_nodes().len() ==> (#[trigger] dev.spec_nodes()[i]).0
                    < old(self).g2l@.len(),
        ensures
            final(self).wf(),
            final(self).g2l@.len() == old(self).g2l@.len(),
            final(self).l2g@ == interned_all(
                old(self).l2g@,
                dev.spec_nodes(),
                dev.spec_nodes().len(),
            ),
            final(self).sub.temp_c == old(self).sub.temp_c,
            final(self).sub.devices@.len() == old(self).sub.devices@.len() + 1,
            final(self).sub.devices@.drop_last() == old(self).sub.devices@,
            redrawn(
                *dev,
                local_ids(final(self).l2g@, dev.spec_nodes()),
                final(self).sub.devices@.last(),
            ),
    {
        let ghost start = self.l2g@;
        let nodes = dev.nodes();
        let mut locals: Vec<NodeId> = Vec::new();
        let mut i: usize = 0;
        while i < nodes.len()
            invariant
                i <= nodes@.len(),
                nodes@ == dev.spec_nodes(),
                self.wf(),
                self.g2l@.len() == old(self).g2l@.len(),
                self.sub.devices == old(self).sub.devices,
                self.sub.temp_c == old(self).sub.temp_c,
                start.len() + nodes@.len() <= u32::MAX,
                forall|i: int|
                    0 <= i < dev.spec_nodes().len() ==> (#[trigger] dev.spec_nodes()[i]).0
                        < self.g2l@.len(),
                self.l2g@ == interned_all(start, nodes@, i as nat),
                self.l2g@.len() <= start.len() + i,
                locals@.len() == i,
                forall|k: int|
                    0 <= k < i ==> (#[trigger] locals@[k]).0 < self.l2g@.len()
                        && self.l2g@[locals@[k].0 as int] == nodes@[k],
            decreases nodes@.len() - i,
        {
            let ghost was = self.l2g@;
            assert(dev.spec_nodes()[i as int].0 < self.g2l@.len());
            let ln = self.map(nodes[i]);
            locals.push(ln);
            assert forall|k: int| 0 <= k < i + 1 implies (#[trigger] locals@[k]).0
                < self.l2g@.len() && self.l2g@[locals@[k].0 as int] == nodes@[k] by {
                if k < i {
                    assert(was[locals@[k].0 as int] == nodes@[k]);
                    assert(self.l2g@[locals@[k].0 as int] == was[locals@[k].0 as int]);
                }
            }
            i = i + 1;
        }
        assert(locals@ =~= local_ids(self.l2g@, nodes@)) by {
            assert forall|k: int| 0 <= k < nodes@.len() implies #[trigger] locals@[k] == local_id(
                self.l2g@,
                nodes@[k],
            ) by {
                lemma_index_of(self.l2g@, locals@[k].0 as int);
            }
        }
        let copied = dev.redraw(&locals);
        let ghost had = self.sub.devices@;
        self.sub.add(copied);
        assert(self.sub.devices@.drop_last() =~= had);
    }
}

/// Where a device is among an island's.
pub open spec fn place_of(ids: Seq<DeviceId>, id: DeviceId, from: int) -> Option<int>
    decreases ids.len() - from,
{
    if from >= ids.len() {
        None
    } else if ids[from] == id {
        Some(from)
    } else {
        place_of(ids, id, from + 1)
    }
}

fn find_place(ids: &Vec<DeviceId>, id: DeviceId) -> (r: Option<usize>)
    ensures
        match place_of(ids@, id, 0) {
            Some(k) => r matches Some(i) && i == k && i < ids@.len() && ids@[i as int] == id,
            None => r is None,
        },
{
    let mut k: usize = 0;
    while k < ids.len()
        invariant
            k <= ids@.len(),
            place_of(ids@, id, 0) == place_of(ids@, id, k as int),
        decreases ids@.len() - k,
    {
        if ids[k] == id {
            return Some(k);
        }
        k = k + 1;
    }
    None
}

/// Whether every device that a device reads is of the island.
pub open spec fn reads_within<S>(dev: Device<S>, ids: Seq<DeviceId>) -> bool {
    forall|k: int|
        0 <= k < dev.spec_controls().len() ==> place_of(
            ids,
            #[trigger] dev.spec_controls()[k],
            0,
        ) is Some
}

/// The local numbers of the devices that a device reads.
pub open spec fn local_controls<S>(dev: Device<S>, ids: Seq<DeviceId>) -> Seq<DeviceId> {
    Seq::new(
        dev.spec_controls().len(),
        |k: int| DeviceId((place_of(ids, dev.spec_controls()[k], 0)->0) as u32),
    )
}

/// The local numbers of the devices that a device reads, if all are of the island.
fn retarget<S: Scalar>(dev: &Device<S>, ids: &Vec<DeviceId>) -> (r: Option<Vec<DeviceId>>)
    requires
        ids@.len() <= u32::MAX,
    ensures
        match r {
            Some(c) => reads_within(*dev, ids@) && c@ == local_controls(*dev, ids@),
            None => !reads_within(*dev, ids@),
        },
{
    let controls = dev.controlling_sources();
    let mut out: Vec<DeviceId> = Vec::new();
    let mut k: usize = 0;
    while k < controls.len()
        invariant
            k <= controls@.len(),
            controls@ == dev.spec_controls(),
            ids@.len() <= u32::MAX,
            out@ == local_controls(*dev, ids@).take(k as int),
            forall|j: int|
                0 <= j < k ==> place_of(ids@, #[trigger] dev.spec_controls()[j], 0) is Some,
        decreases controls@.len() - k,
    {
        let ghost all = local_controls(*dev, ids@);
        match find_place(ids, controls[k]) {
            Some(i) => {
                out.push(DeviceId(i as u32));
                assert(all.take(k + 1) =~= all.take(k as int).push(all[k as int]));
            },
            None => {
                assert(place_of(ids@, dev.spec_controls()[k as int], 0) is None);
                return None;
            },
        }
        k = k + 1;
    }
    assert(local_controls(*dev, ids@).take(k as int) =~= local_controls(*dev, ids@));
    Some(out)
}

/// Whether `copy` is a device on local nodes that reads local devices.
pub open spec fn placed<S>(
    dev: Device<S>,
    nodes: Seq<NodeId>,
    controls: Seq<DeviceId>,
    copy: Device<S>,
) -> bool {
    exists|mid: Device<S>|
        #![trigger redrawn(dev, nodes, mid)]
        redrawn(dev, nodes, mid) && rewired(mid, controls, copy)
}

/// A source that pins a boundary node.
pub open spec fn is_pin_on<S: Scalar>(dev: Device<S>, gn: NodeId, ln: NodeId, v: S) -> bool {
    match dev {
        Device::Vsource { name, p, n, kind } => name@ == "VB"@ + decimal_digits(gn.0 as nat) && p
            == ln && n == NodeId(0) && kind == SourceKind::Dc(v),
        _ => false,
    }
}

/// The nodes of an island's circuit: those of its devices in order of first
/// mention, then what is left of its boundary.
pub open spec fn island_nodes<S: Scalar>(circuit: &Circuit<S>, isl: &Island) -> Seq<NodeId> {
    interned_all(
        node_list(circuit, isl.devices@, isl.devices@.len()),
        isl.boundary_in@,
        isl.boundary_in@.len(),
    )
}

/// Whether a circuit is an island's: its devices on local nodes and reading local
/// devices, then a source per boundary node.
pub open spec fn lowers<S: Scalar>(
    circuit: &Circuit<S>,
    isl: &Island,
    sub: &Circuit<S>,
    l2g: Seq<NodeId>,
) -> bool {
    let own = isl.devices@.len();
    &&& sub.wf()
    &&& sub.temp_c == circuit.temp_c
    &&& l2g == island_nodes(circuit, isl)
    &&& l2g.no_duplicates()
    &&& sub.node_names() == Seq::new(l2g.len(), |i: int| island_name(l2g[i]))
    &&& sub.devices@.len() == own + isl.boundary_in@.len()
    &&& forall|k: int|
        0 <= k < own ==> {
            let dev = circuit.devices@[isl.devices@[k].0 as int];
            placed(
                dev,
                local_ids(l2g, dev.spec_nodes()),
                local_controls(dev, isl.devices@),
                #[trigger] sub.devices@[k],
            )
        }
    &&& forall|k: int|
        own <= k < sub.devices@.len() ==> is_pin_on(
            #[trigger] sub.devices@[k],
            isl.boundary_in@[k - own],
            local_id(l2g, isl.boundary_in@[k - own]),
            S::spec_zero(),
        )
}

/// Whether an island can be lowered: its devices and its boundary are of the
/// circuit, and its numbers fit their integers.
pub open spec fn fits<S: Scalar>(circuit: &Circuit<S>, isl: &Island) -> bool {
    &&& circuit.wf()
    &&& couplings_resolve(circuit.devices@)
    &&& forall|k: int|
        0 <= k < isl.devices@.len() ==> (#[trigger] isl.devices@[k]).0 < circuit.devices@.len()
    &&& forall|k: int|
        0 <= k < isl.boundary_in@.len() ==> (#[trigger] isl.boundary_in@[k]).0
            <= circuit.spec_max_node()
    &&& circuit.spec_max_node() < usize::MAX
    &&& isl.devices@.len() + isl.boundary_in@.len() <= u32::MAX
    &&& 1 + mentions(circuit, isl.devices@, isl.devices@.len()) + isl.boundary_in@.len() <= u32::MAX
}

/// Whether every device of an island reads devices of the island alone.
pub open spec fn self_contained<S: Scalar>(circuit: &Circuit<S>, isl: &Island) -> bool {
    forall|k: int|
        0 <= k < isl.devices@.len() ==> reads_within(
            circuit.devices@[(#[trigger] isl.devices@[k]).0 as int],
            isl.devices@,
        )
}

/// An island's devices copied onto local nodes, not yet rewired.
fn copy_devices<S: Scalar>(circuit: &Circuit<S>, isl: &Island) -> (r: Lowering<S>)
    requires
        fits(circuit, isl),
    ensures
        r.wf(),
        r.g2l@.len() == circuit.spec_max_node() + 1,
        r.l2g@ == node_list(circuit, isl.devices@, isl.devices@.len()),
        r.sub.temp_c == circuit.temp_c,
        r.sub.devices@.len() == isl.devices@.len(),
        forall|k: int|
            0 <= k < isl.devices@.len() ==> redrawn(
                circuit.devices@[isl.devices@[k].0 as int],
                local_ids(r.l2g@, circuit.devices@[isl.devices@[k].0 as int].spec_nodes()),
                #[trigger] r.sub.devices@[k],
            ),
{
    let ghost ids = isl.devices@;
    proof {
        circuit.lemma_names();
        lemma_greatest_used(
            circuit.devices@,
            circuit.devices@.len(),
            circuit.node_names().len() - 1,
        );
    }
    let mut low: Lowering<S> = Lowering::new(circuit.temp_c, circuit.max_node() as usize + 1);
    let mut k: usize = 0;
    while k < isl.devices.len()
        invariant
            k <= ids.len(),
            ids == isl.devices@,
            fits(circuit, isl),
            forall|d: int, i: int|
                #![trigger circuit.devices@[d].spec_nodes()[i]]
                0 <= d < circuit.devices@.len() && 0 <= i < circuit.devices@[d].spec_nodes().len()
                    ==> circuit.devices@[d].spec_nodes()[i].0 <= circuit.spec_max_node(),
            low.wf(),
            low.g2l@.len() == circuit.spec_max_node() + 1,
            low.l2g@ == node_list(circuit, ids, k as nat),
            low.sub.temp_c == circuit.temp_c,
            low.sub.devices@.len() == k,
            forall|j: int|
                0 <= j < k ==> redrawn(
                    circuit.devices@[ids[j].0 as int],
                    local_ids(low.l2g@, circuit.devices@[ids[j].0 as int].spec_nodes()),
                    #[trigger] low.sub.devices@[j],
                ),
        decreases ids.len() - k,
    {
        let ghost before = low;
        let id = isl.devices[k];
        proof {
            lemma_mentions_grow(circuit, ids, (k + 1) as nat, ids.len());
            lemma_ground_listed(circuit, ids, k as nat);
        }
        low.copy(&circuit.devices[id.0 as usize]);
        proof {
            let nodes = circuit.devices@[id.0 as int].spec_nodes();
            lemma_interned_all(before.l2g@, nodes, nodes.len());
            assert forall|j: int| 0 <= j < k + 1 implies redrawn(
                circuit.devices@[ids[j].0 as int],
                local_ids(low.l2g@, circuit.devices@[ids[j].0 as int].spec_nodes()),
                #[trigger] low.sub.devices@[j],
            ) by {
                if j < k {
                    assert(low.sub.devices@.drop_last()[j] == before.sub.devices@[j]);
                    let mine = circuit.devices@[ids[j].0 as int].spec_nodes();
                    lemma_node_list(circuit, ids, k as nat, j);
                    lemma_local_ids_stay(before.l2g@, low.l2g@, mine);
                }
            }
        }
        k = k + 1;
    }
    low
}

/// Rewire the copies to local devices; whether all could be.
fn rewire_devices<S: Scalar>(circuit: &Circuit<S>, isl: &Island, low: &mut Lowering<S>) -> (r: bool)
    requires
        fits(circuit, isl),
        old(low).wf(),
        old(low).sub.devices@.len() == isl.devices@.len(),
        forall|k: int|
            0 <= k < isl.devices@.len() ==> redrawn(
                circuit.devices@[isl.devices@[k].0 as int],
                local_ids(old(low).l2g@, circuit.devices@[isl.devices@[k].0 as int].spec_nodes()),
                #[trigger] old(low).sub.devices@[k],
            ),
    ensures
        final(low).wf(),
        final(low).l2g == old(low).l2g,
        final(low).g2l == old(low).g2l,
        final(low).sub.temp_c == old(low).sub.temp_c,
        final(low).sub.devices@.len() == isl.devices@.len(),
        r == self_contained(circuit, isl),
        r ==> forall|k: int|
            0 <= k < isl.devices@.len() ==> {
                let dev = circuit.devices@[isl.devices@[k].0 as int];
                placed(
                    dev,
                    local_ids(final(low).l2g@, dev.spec_nodes()),
                    local_controls(dev, isl.devices@),
                    #[trigger] final(low).sub.devices@[k],
                )
            },
{
    let ghost ids = isl.devices@;
    let mut k: usize = 0;
    while k < isl.devices.len()
        invariant
            k <= ids.len(),
            ids == isl.devices@,
            fits(circuit, isl),
            low.wf(),
            low.l2g == old(low).l2g,
            low.g2l == old(low).g2l,
            low.sub.temp_c == old(low).sub.temp_c,
            low.sub.devices@.len() == ids.len(),
            forall|j: int|
                k <= j < ids.len() ==> redrawn(
                    circuit.devices@[ids[j].0 as int],
                    local_ids(low.l2g@, circuit.devices@[ids[j].0 as int].spec_nodes()),
                    #[trigger] low.sub.devices@[j],
                ),
            forall|j: int|
                0 <= j < k ==> reads_within(circuit.devices@[(#[trigger] ids[j]).0 as int], ids),
            forall|j: int|
                0 <= j < k ==> placed(
                    circuit.devices@[ids[j].0 as int],
                    local_ids(low.l2g@, circuit.devices@[ids[j].0 as int].spec_nodes()),
                    local_controls(circuit.devices@[ids[j].0 as int], ids),
                    #[trigger] low.sub.devices@[j],
                ),
        decreases ids.len() - k,
    {
        let id = isl.devices[k];
        match retarget(&circuit.devices[id.0 as usize], &isl.devices) {
            Some(controls) => {
                let ghost before = *low;
                let ghost mid = before.sub.devices@[k as int];
                let ghost dev = circuit.devices@[ids[k as int].0 as int];
                let ghost nodes = local_ids(before.l2g@, dev.spec_nodes());
                proof {
                    assert(redrawn(dev, nodes, before.sub.devices@[k as int]));
                    lemma_redrawn_controls(dev, nodes, mid);
                }
                low.sub.devices[k].rewire(&controls);
                assert(low.sub.node_names() =~= before.sub.node_names());
                assert(placed(dev, nodes, controls@, low.sub.devices@[k as int]));
            },
            None => {
                assert(!reads_within(circuit.devices@[ids[k as int].0 as int], ids));
                return false;
            },
        }
        k = k + 1;
    }
    true
}

/// Add a source per boundary node.
fn pin_boundary<S: Scalar>(circuit: &Circuit<S>, isl: &Island, low: &mut Lowering<S>)
    requires
        fits(circuit, isl),
        old(low).wf(),
        old(low).g2l@.len() == circuit.spec_max_node() + 1,
        old(low).l2g@ == node_list(circuit, isl.devices@, isl.devices@.len()),
        old(low).sub.devices@.len() == isl.devices@.len(),
    ensures
        final(low).wf(),
        final(low).l2g@ == island_nodes(circuit, isl),
        final(low).sub.temp_c == old(low).sub.temp_c,
        final(low).sub.devices@.len() == isl.devices@.len() + isl.boundary_in@.len(),
        forall|k: int|
            0 <= k < isl.devices@.len() ==> #[trigger] final(low).sub.devices@[k] == old(
                low,
            ).sub.devices@[k],
        forall|k: int|
            isl.devices@.len() <= k < final(low).sub.devices@.len() ==> is_pin_on(
                #[trigger] final(low).sub.devices@[k],
                isl.boundary_in@[k - isl.devices@.len()],
                local_id(final(low).l2g@, isl.boundary_in@[k - isl.devices@.len()]),
                S::spec_zero(),
            ),
{
    let ghost own = isl.devices@.len();
    let ghost edge = isl.boundary_in@;
    let ghost start = low.l2g@;
    proof {
        lemma_ground_listed(circuit, isl.devices@, own);
    }
    let mut k: usize = 0;
    while k < isl.boundary_in.len()
        invariant
            k <= edge.len(),
            edge == isl.boundary_in@,
            own == isl.devices@.len(),
            fits(circuit, isl),
            start.len() <= 1 + mentions(circuit, isl.devices@, own),
            start == node_list(circuit, isl.devices@, own),
            low.wf(),
            low.g2l@.len() == circuit.spec_max_node() + 1,
            low.l2g@ == interned_all(start, edge, k as nat),
            low.l2g@.len() <= start.len() + k,
            low.sub.temp_c == old(low).sub.temp_c,
            low.sub.devices@.len() == own + k,
            forall|j: int|
                0 <= j < own ==> #[trigger] low.sub.devices@[j] == old(low).sub.devices@[j],
            forall|j: int|
                own <= j < own + k ==> is_pin_on(
                    #[trigger] low.sub.devices@[j],
                    edge[j - own],
                    local_id(low.l2g@, edge[j - own]),
                    S::spec_zero(),
                ),
            forall|j: int| 0 <= j < k ==> low.l2g@.contains(#[trigger] edge[j]),
        decreases edge.len() - k,
    {
        let ghost before = *low;
        let gn = isl.boundary_in[k];
        let ln = low.map(gn);
        let mut name = String::from_str("VB");
        name.append(decimal(gn.0 as usize).as_str());
        let pin = Device::Vsource {
            name,
            p: ln,
            n: NodeId::ground(),
            kind: SourceKind::Dc(S::zero()),
        };
        low.sub.add(pin);
        proof {
            assert(low.sub.devices@[own + k] == pin);
            assert(low.l2g@[ln.0 as int] == gn);
            assert forall|j: int| own <= j < own + k + 1 implies is_pin_on(
                #[trigger] low.sub.devices@[j],
                edge[j - own],
                local_id(low.l2g@, edge[j - own]),
                S::spec_zero(),
            ) by {
                if j < own + k {
                    assert(low.sub.devices@[j] == before.sub.devices@[j]);
                    assert(before.l2g@.contains(edge[j - own]));
                    let i = choose|i: int| 0 <= i < before.l2g@.len() && before.l2g@[i] == edge[j - own];
                    lemma_index_of(before.l2g@, i);
                    assert(low.l2g@[i] == before.l2g@[i]);
                    lemma_index_of(low.l2g@, i);
                }
            }
            assert forall|j: int| 0 <= j < k + 1 implies low.l2g@.contains(#[trigger] edge[j]) by {
                if j < k {
                    assert(before.l2g@.contains(edge[j]));
                    let i = choose|i: int| 0 <= i < before.l2g@.len() && before.l2g@[i] == edge[j];
                    assert(low.l2g@[i] == edge[j]);
                }
            }
        }
        k = k + 1;
    }
}

/// An island as a circuit of its own, with the node of each local node. An island
/// that reads a device outside itself has none.
pub fn lower<S: Scalar>(circuit: &Circuit<S>, isl: &Island) -> (r: Option<
    (Circuit<S>, Vec<NodeId>),
>)
    requires
        fits(circuit, isl),
    ensures
        match r {
            Some((sub, l2g)) => self_contained(circuit, isl) && lowers(circuit, isl, &sub, l2g@)
                && couplings_resolve(sub.devices@),
            None => !self_contained(circuit, isl),
        },
{
    let mut low = copy_devices(circuit, isl);
    if !rewire_devices(circuit, isl, &mut low) {
        return None;
    }
    let ghost before = low;
    pin_boundary(circuit, isl, &mut low);
    proof {
        let own = isl.devices@.len();
        let edge = isl.boundary_in@;
        lemma_interned_all(before.l2g@, edge, edge.len());
        assert forall|k: int| 0 <= k < own implies {
            let dev = circuit.devices@[isl.devices@[k].0 as int];
            placed(
                dev,
                local_ids(low.l2g@, dev.spec_nodes()),
                local_controls(dev, isl.devices@),
                #[trigger] low.sub.devices@[k],
            )
        } by {
            let dev = circuit.devices@[isl.devices@[k].0 as int];
            assert(low.sub.devices@[k] == before.sub.devices@[k]);
            lemma_node_list(circuit, isl.devices@, own, k);
            lemma_local_ids_stay(before.l2g@, low.l2g@, dev.spec_nodes());
        }
        assert(low.sub.node_names() =~= Seq::new(
            low.l2g@.len(),
            |i: int| island_name(low.l2g@[i]),
        ));
        assert(lowers(circuit, isl, &low.sub, low.l2g@));
        lemma_lowered_couplings(circuit, isl, &low.sub, low.l2g@);
    }
    Some((low.sub, low.l2g))
}

/// Couplings of a self-contained island join its inductors.
proof fn lemma_lowered_couplings<S: Scalar>(
    circuit: &Circuit<S>,
    isl: &Island,
    sub: &Circuit<S>,
    l2g: Seq<NodeId>,
)
    requires
        fits(circuit, isl),
        self_contained(circuit, isl),
        lowers(circuit, isl, sub, l2g),
    ensures
        couplings_resolve(sub.devices@),
{
    let ids = isl.devices@;
    let own = ids.len();
    assert forall|d: int| #![trigger sub.devices@[d]] 0 <= d < sub.devices@.len() implies match sub.devices@[d] {
        Device::Coupling { l1, l2, .. } => l1.0 < sub.devices@.len() && l2.0 < sub.devices@.len()
            && sub.devices@[l1.0 as int] is Inductor && sub.devices@[l2.0 as int] is Inductor,
        _ => true,
    } by {
        if sub.devices@[d] is Coupling {
            if d >= own {
                assert(is_pin_on(
                    sub.devices@[d],
                    isl.boundary_in@[d - own],
                    local_id(l2g, isl.boundary_in@[d - own]),
                    S::spec_zero(),
                ));
            } else {
                let dev = circuit.devices@[ids[d].0 as int];
                assert(reads_within(circuit.devices@[ids[d].0 as int], ids));
                assert(placed(
                    dev,
                    local_ids(l2g, dev.spec_nodes()),
                    local_controls(dev, ids),
                    sub.devices@[d],
                ));
                assert(dev is Coupling);
                assert(dev.spec_controls().len() == 2);
                lemma_inductor_placed(circuit, isl, sub, l2g, dev.spec_controls()[0]);
                lemma_inductor_placed(circuit, isl, sub, l2g, dev.spec_controls()[1]);
            }
        }
    }
}

proof fn lemma_inductor_placed<S: Scalar>(
    circuit: &Circuit<S>,
    isl: &Island,
    sub: &Circuit<S>,
    l2g: Seq<NodeId>,
    id: DeviceId,
)
    requires
        lowers(circuit, isl, sub, l2g),
        isl.devices@.len() <= u32::MAX,
        place_of(isl.devices@, id, 0) is Some,
        circuit.devices@[id.0 as int] is Inductor,
    ensures
        ({
            let k = (place_of(isl.devices@, id, 0)->0) as u32;
            k < sub.devices@.len() && sub.devices@[k as int] is Inductor
        }),
{
    let ids = isl.devices@;
    lemma_place(ids, id, 0);
    let k = place_of(ids, id, 0)->0;
    let dev = circuit.devices@[ids[k].0 as int];
    assert(placed(
        dev,
        local_ids(l2g, dev.spec_nodes()),
        local_controls(dev, ids),
        sub.devices@[k],
    ));
}

proof fn lemma_place(ids: Seq<DeviceId>, id: DeviceId, from: int)
    requires
        place_of(ids, id, from) is Some,
        0 <= from,
    ensures
        from <= place_of(ids, id, from)->0 < ids.len(),
        ids[place_of(ids, id, from)->0] == id,
    decreases ids.len() - from,
{
    if ids[from] != id {
        lemma_place(ids, id, from + 1);
    }
}

} // verus!
