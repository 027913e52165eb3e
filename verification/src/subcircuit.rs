//! Part of a circuit as a circuit of its own.
//!
//! Local node numbers are given in the order in which the copied devices first
//! mention a node, so an extracted circuit is a function of the order in which
//! devices are copied. Node names are kept; a node that the parent never named is
//! named after its number.
use std::collections::HashMap;

use vstd::prelude::*;

use crate::circuit::{Circuit, Device, DeviceId, NodeId};
use crate::duplicate::redrawn;
use crate::scalar::Scalar;
use crate::text::{decimal, decimal_digits, digit_char};

verus! {

broadcast use vstd::std_specs::hash::group_hash_axioms;

/// What a node without a name is called.
pub open spec fn number_name(n: nat) -> Seq<char> {
    "?"@ + decimal_digits(n)
}

/// What a node of the parent is called.
pub open spec fn given_name(names: Seq<Seq<char>>, n: NodeId) -> Seq<char> {
    if n.0 < names.len() {
        names[n.0 as int]
    } else {
        number_name(n.0 as nat)
    }
}

/// Whether no named node has the name that an unnamed one would get.
pub open spec fn unclaimed(names: Seq<Seq<char>>) -> bool {
    forall|i: int, n: nat|
        #![trigger names[i], number_name(n)]
        0 <= i < names.len() && n >= names.len() ==> names[i] != number_name(n)
}

/// Different numbers have different digits.
pub proof fn lemma_digits_injective(a: nat, b: nat)
    requires
        decimal_digits(a) == decimal_digits(b),
    ensures
        a == b,
    decreases a,
{
    lemma_digits_len(a);
    lemma_digits_len(b);
    if a < 10 {
        assert(decimal_digits(a)[0] == decimal_digits(b)[0]);
        assert(b < 10);
        assert(decimal_digits(a)[0] == digit_char(a as int));
        assert(decimal_digits(b)[0] == digit_char(b as int));
        assert((48 + a) as u32 == (48 + b) as u32);
    } else {
        assert(b >= 10);
        let x = decimal_digits(a / 10);
        let y = decimal_digits(b / 10);
        assert(decimal_digits(a).drop_last() =~= x);
        assert(decimal_digits(b).drop_last() =~= y);
        lemma_digits_injective(a / 10, b / 10);
        assert(decimal_digits(a).last() == digit_char((a % 10) as int));
        assert(decimal_digits(b).last() == digit_char((b % 10) as int));
        assert((48 + a % 10) as u32 == (48 + b % 10) as u32);
    }
}

proof fn lemma_digits_len(a: nat)
    ensures
        decimal_digits(a).len() >= 1,
        a < 10 <==> decimal_digits(a).len() == 1,
    decreases a,
{
    if a >= 10 {
        lemma_digits_len(a / 10);
    }
}

/// Different nodes of the parent are called differently.
proof fn lemma_given_names_differ(names: Seq<Seq<char>>, a: NodeId, b: NodeId)
    requires
        unclaimed(names),
        forall|i: int, j: int|
            #![trigger names[i], names[j]]
            0 <= i < j < names.len() ==> names[i] != names[j],
        a != b,
    ensures
        given_name(names, a) != given_name(names, b),
{
    if a.0 >= names.len() && b.0 >= names.len() {
        if number_name(a.0 as nat) == number_name(b.0 as nat) {
            let x = decimal_digits(a.0 as nat);
            let y = decimal_digits(b.0 as nat);
            assert(number_name(a.0 as nat).skip("?"@.len() as int) =~= x);
            assert(number_name(b.0 as nat).skip("?"@.len() as int) =~= y);
            lemma_digits_injective(a.0 as nat, b.0 as nat);
        }
    } else if a.0 < names.len() && b.0 < names.len() {
        if a.0 < b.0 {
            assert(names[a.0 as int] != names[b.0 as int]);
        } else {
            assert(names[b.0 as int] != names[a.0 as int]);
        }
    }
}

/// The list with a node at its end, unless it is ground or already listed.
pub open spec fn interned(l2g: Seq<NodeId>, n: NodeId) -> Seq<NodeId> {
    if n.0 == 0 || l2g.contains(n) {
        l2g
    } else {
        l2g.push(n)
    }
}

/// The list with the first `count` nodes of another interned in turn.
pub open spec fn interned_all(l2g: Seq<NodeId>, nodes: Seq<NodeId>, count: nat) -> Seq<NodeId>
    decreases count,
{
    if count == 0 {
        l2g
    } else {
        interned(interned_all(l2g, nodes, (count - 1) as nat), nodes[count - 1])
    }
}

/// The local number of a listed node.
pub open spec fn local_id(l2g: Seq<NodeId>, n: NodeId) -> NodeId {
    NodeId(l2g.index_of(n) as u32)
}

/// The local numbers of listed nodes.
pub open spec fn local_ids(l2g: Seq<NodeId>, nodes: Seq<NodeId>) -> Seq<NodeId> {
    Seq::new(nodes.len(), |i: int| local_id(l2g, nodes[i]))
}

/// A circuit under construction from pieces of a parent, with its node map.
#[derive(Debug)]
pub struct SubCircuit<S> {
    pub circuit: Circuit<S>,
    /// Parent node to local node, ground excepted.
    pub g2l: HashMap<u32, u32>,
    /// Local node to parent node; ground is first.
    pub l2g: Vec<NodeId>,
}

impl<S: Scalar> SubCircuit<S> {
    /// The two maps are inverse to each other, local nodes are the circuit's
    /// nodes, and each is called as in the parent.
    pub open spec fn wf(&self, parent: &Circuit<S>) -> bool {
        &&& parent.wf()
        &&& unclaimed(parent.node_names())
        &&& self.circuit.wf()
        &&& self.l2g@.len() == self.circuit.node_names().len()
        &&& self.l2g@[0] == NodeId(0)
        &&& self.l2g@.no_duplicates()
        &&& forall|i: int|
            0 <= i < self.l2g@.len() ==> #[trigger] self.circuit.node_names()[i] == given_name(
                parent.node_names(),
                self.l2g@[i],
            )
        &&& forall|i: int|
            1 <= i < self.l2g@.len() ==> self.g2l@.dom().contains((#[trigger] self.l2g@[i]).0)
                && self.g2l@[self.l2g@[i].0] == i
        &&& forall|n: u32|
            #[trigger] self.g2l@.dom().contains(n) ==> 1 <= self.g2l@[n] < self.l2g@.len()
                && self.l2g@[self.g2l@[n] as int] == NodeId(n)
    }

    /// An empty sub-circuit at the parent's temperature.
    pub fn new(parent: &Circuit<S>) -> (r: Self)
        requires
            parent.wf(),
            unclaimed(parent.node_names()),
        ensures
            r.wf(parent),
            r.l2g@ == seq![NodeId(0)],
            r.circuit.devices@.len() == 0,
            r.circuit.temp_c == parent.temp_c,
    {
        let mut circuit: Circuit<S> = Circuit::new();
        circuit.temp_c = parent.temp_c;
        let mut l2g: Vec<NodeId> = Vec::new();
        l2g.push(NodeId::ground());
        let r = SubCircuit { circuit, g2l: HashMap::new(), l2g };
        assert(r.circuit.node_names() =~= seq!["0"@]);
        assert(parent.node_names()[0] == "0"@);
        assert(r.l2g@ =~= seq![NodeId(0)]);
        r
    }

    /// The local number of a parent node, given on first sight.
    pub fn map(&mut self, parent: &Circuit<S>, gn: NodeId) -> (r: NodeId)
        requires
            old(self).wf(parent),
            old(self).l2g@.len() < u32::MAX,
        ensures
            final(self).wf(parent),
            final(self).l2g@ == interned(old(self).l2g@, gn),
            final(self).circuit.devices == old(self).circuit.devices,
            final(self).circuit.temp_c == old(self).circuit.temp_c,
            r == local_id(final(self).l2g@, gn),
            r.0 < final(self).l2g@.len(),
            final(self).l2g@[r.0 as int] == gn,
    {
        let ghost before = *self;
        if gn.is_ground() {
            proof {
                assert(self.l2g@[0] == gn);
                lemma_index_of(self.l2g@, 0);
            }
            return NodeId::ground();
        }
        match self.g2l.get(&gn.0) {
            Some(ln) => {
                let found: u32 = *ln;
                proof {
                    assert(self.g2l@.dom().contains(gn.0));
                    assert(self.l2g@[found as int] == gn);
                    lemma_index_of(self.l2g@, found as int);
                }
                return NodeId(found);
            },
            None => {},
        }
        assert(!self.l2g@.contains(gn)) by {
            if self.l2g@.contains(gn) {
                let i = choose|i: int| 0 <= i < self.l2g@.len() && self.l2g@[i] == gn;
                assert(self.g2l@.dom().contains(self.l2g@[i].0));
            }
        }
        let ghost called = given_name(parent.node_names(), gn);
        proof {
            assert forall|i: int| 0 <= i < before.l2g@.len() implies #[trigger] before.circuit.node_names()[i]
                != called by {
                parent.lemma_names();
                lemma_given_names_differ(parent.node_names(), before.l2g@[i], gn);
            }
            assert(!before.circuit.node_names().contains(called));
        }
        let ln: NodeId = if (gn.0 as usize) < parent.node_count() {
            self.circuit.node(parent.node_name(gn))
        } else {
            let mut name: String = String::from_str("?");
            let digits: String = decimal(gn.0 as usize);
            name.append(digits.as_str());
            self.circuit.node(name.as_str())
        };
        assert(self.circuit.node_names() == before.circuit.node_names().push(called));
        self.g2l.insert(gn.0, ln.0);
        self.l2g.push(gn);
        proof {
            assert(self.l2g@ == before.l2g@.push(gn));
            lemma_push_distinct(before.l2g@, gn);
            lemma_index_of(self.l2g@, ln.0 as int);
            assert forall|n: u32| #[trigger] self.g2l@.dom().contains(n) implies 1 <= self.g2l@[n]
                < self.l2g@.len() && self.l2g@[self.g2l@[n] as int] == NodeId(n) by {
                if n != gn.0 {
                    assert(before.g2l@.dom().contains(n));
                }
            }
            assert forall|i: int| 1 <= i < self.l2g@.len() implies self.g2l@.dom().contains(
                (#[trigger] self.l2g@[i]).0,
            ) && self.g2l@[self.l2g@[i].0] == i by {
                if i < before.l2g@.len() {
                    assert(before.g2l@.dom().contains(before.l2g@[i].0));
                    assert(before.l2g@[i] != gn) by {
                        if before.l2g@[i] == gn {
                            assert(before.l2g@.contains(gn));
                        }
                    }
                }
            }
        }
        ln
    }

    /// Copy a device of the parent, with its nodes as local ones; its local id.
    pub fn copy(&mut self, parent: &Circuit<S>, id: DeviceId) -> (r: DeviceId)
        requires
            old(self).wf(parent),
            id.0 < parent.devices@.len(),
            old(self).l2g@.len() + parent.devices@[id.0 as int].spec_nodes().len() <= u32::MAX,
            old(self).circuit.devices@.len() < u32::MAX,
        ensures
            final(self).wf(parent),
            ({
                let dev = parent.devices@[id.0 as int];
                let nodes = dev.spec_nodes();
                let devices = final(self).circuit.devices@;
                &&& final(self).l2g@ == interned_all(old(self).l2g@, nodes, nodes.len())
                &&& devices.len() == old(self).circuit.devices@.len() + 1
                &&& devices.drop_last() == old(self).circuit.devices@
                &&& redrawn(dev, local_ids(final(self).l2g@, nodes), devices.last())
            }),
            final(self).circuit.temp_c == old(self).circuit.temp_c,
            r.0 == old(self).circuit.devices@.len(),
    {
        let ghost start = self.l2g@;
        let nodes = parent.devices[id.0 as usize].nodes();
        let mut locals: Vec<NodeId> = Vec::new();
        let mut i: usize = 0;
        while i < nodes.len()
            invariant
                i <= nodes@.len(),
                self.wf(parent),
                self.circuit.devices == old(self).circuit.devices,
                self.circuit.temp_c == old(self).circuit.temp_c,
                start.len() + nodes@.len() <= u32::MAX,
                self.l2g@ == interned_all(start, nodes@, i as nat),
                self.l2g@.len() <= start.len() + i,
                locals@.len() == i,
                forall|k: int|
                    0 <= k < i ==> (#[trigger] locals@[k]).0 < self.l2g@.len()
                        && self.l2g@[locals@[k].0 as int] == nodes@[k],
            decreases nodes@.len() - i,
        {
            let ghost was = self.l2g@;
            let ln = self.map(parent, nodes[i]);
            locals.push(ln);
            assert forall|k: int| 0 <= k < i + 1 implies (#[trigger] locals@[k]).0
                < self.l2g@.len() && self.l2g@[locals@[k].0 as int] == nodes@[k] by {
                if k < i {
                    assert(was[locals@[k].0 as int] == nodes@[k]);
                    assert(self.l2g@[locals@[k].0 as int] == was[locals@[k].0 as int]);
                }
            }
            i = i + 1;
        }
        assert(locals@ =~= local_ids(self.l2g@, nodes@)) by {
            assert forall|k: int| 0 <= k < nodes@.len() implies #[trigger] locals@[k] == local_id(
                self.l2g@,
                nodes@[k],
            ) by {
                lemma_index_of(self.l2g@, locals@[k].0 as int);
            }
        }
        let copied = parent.devices[id.0 as usize].redraw(&locals);
        let ghost had = self.circuit.devices@;
        let r = self.circuit.add(copied);
        assert(self.circuit.devices@.drop_last() =~= had);
        r
    }

    /// Add a device that is already on local nodes; its local id.
    pub fn add(&mut self, parent: &Circuit<S>, device: Device<S>) -> (r: DeviceId)
        requires
            old(self).wf(parent),
            old(self).circuit.devices@.len() < u32::MAX,
        ensures
            final(self).wf(parent),
            final(self).l2g == old(self).l2g,
            final(self).circuit.temp_c == old(self).circuit.temp_c,
            final(self).circuit.devices@ == old(self).circuit.devices@.push(device),
            r.0 == old(self).circuit.devices@.len(),
    {
        self.circuit.add(device)
    }

    /// The local number of a parent node, if it has one.
    pub fn local(&self, parent: &Circuit<S>, gn: NodeId) -> (r: Option<NodeId>)
        requires
            self.wf(parent),
        ensures
            match r {
                Some(ln) => ln == local_id(self.l2g@, gn) && ln.0 < self.l2g@.len()
                    && self.l2g@[ln.0 as int] == gn,
                None => !self.l2g@.contains(gn),
            },
    {
        if gn.is_ground() {
            proof {
                assert(self.l2g@[0] == gn);
                lemma_index_of(self.l2g@, 0);
            }
            return Some(NodeId::ground());
        }
        match self.g2l.get(&gn.0) {
            Some(ln) => {
                let found: u32 = *ln;
                proof {
                    assert(self.g2l@.dom().contains(gn.0));
                    lemma_index_of(self.l2g@, found as int);
                }
                Some(NodeId(found))
            },
            None => {
                assert(!self.l2g@.contains(gn)) by {
                    if self.l2g@.contains(gn) {
                        let i = choose|i: int| 0 <= i < self.l2g@.len() && self.l2g@[i] == gn;
                        assert(self.g2l@.dom().contains(self.l2g@[i].0));
                    }
                }
                None
            },
        }
    }

    /// The parent node of every local node.
    pub fn l2g(&self) -> (r: &Vec<NodeId>)
        ensures
            r@ == self.l2g@,
    {
        &self.l2g
    }

    /// The circuit and its parent-to-local map.
    pub fn into_parts(self) -> (r: (Circuit<S>, HashMap<u32, u32>))
        ensures
            r.0 == self.circuit,
            r.1 == self.g2l,
    {
        (self.circuit, self.g2l)
    }
}

pub proof fn lemma_index_of(s: Seq<NodeId>, i: int)
    requires
        s.no_duplicates(),
        0 <= i < s.len(),
    ensures
        s.contains(s[i]),
        s.index_of(s[i]) == i,
{
    assert(s.contains(s[i]));
    let k = s.index_of(s[i]);
    assert(0 <= k < s.len() && s[k] == s[i]);
}

pub proof fn lemma_push_distinct(s: Seq<NodeId>, n: NodeId)
    requires
        s.no_duplicates(),
        !s.contains(n),
    ensures
        s.push(n).no_duplicates(),
{
    let t = s.push(n);
    assert forall|i: int, j: int| 0 <= i < t.len() && 0 <= j < t.len() && i != j implies t[i]
        != t[j] by {
        if i < s.len() && j == s.len() {
            assert(s.contains(s[i]));
        }
        if j < s.len() && i == s.len() {
            assert(s.contains(s[j]));
        }
    }
}

/// The two directions of the node map undo each other.
pub proof fn law_node_maps_are_inverse<S: Scalar>(sub: &SubCircuit<S>, parent: &Circuit<S>, i: int)
    requires
        sub.wf(parent),
        0 <= i < sub.l2g@.len(),
    ensures
        local_id(sub.l2g@, sub.l2g@[i]) == NodeId(i as u32),
        i > 0 ==> sub.g2l@[sub.l2g@[i].0] == i,
        forall|n: u32|
            #[trigger] sub.g2l@.dom().contains(n) ==> sub.l2g@[sub.g2l@[n] as int] == NodeId(n),
{
    lemma_index_of(sub.l2g@, i);
}

/// Which local numbers nodes get depends on the order of first mention alone: a
/// node keeps its number however many more are interned.
pub proof fn law_local_numbers_stay(l2g: Seq<NodeId>, more: Seq<NodeId>, count: nat, i: int)
    requires
        0 <= i < l2g.len(),
    ensures
        interned_all(l2g, more, count).len() >= l2g.len(),
        interned_all(l2g, more, count)[i] == l2g[i],
    decreases count,
{
    if count > 0 {
        law_local_numbers_stay(l2g, more, (count - 1) as nat, i);
    }
}

/// How many times the first `count` listed devices mention a node.
pub open spec fn mentions<S: Scalar>(parent: &Circuit<S>, ids: Seq<DeviceId>, count: nat) -> nat
    decreases count,
{
    if count == 0 {
        0
    } else {
        mentions(parent, ids, (count - 1) as nat) + parent.devices@[ids[count
            - 1].0 as int].spec_nodes().len()
    }
}

/// The nodes of the first `count` listed devices, in the order of first mention,
/// ground first.
pub open spec fn node_list<S: Scalar>(
    parent: &Circuit<S>,
    ids: Seq<DeviceId>,
    count: nat,
) -> Seq<NodeId>
    decreases count,
{
    if count == 0 {
        seq![NodeId(0)]
    } else {
        let nodes = parent.devices@[ids[count - 1].0 as int].spec_nodes();
        interned_all(node_list(parent, ids, (count - 1) as nat), nodes, nodes.len())
    }
}

/// Whether devices are the first `count` listed ones of the parent, on the local
/// numbers of their nodes.
pub open spec fn extracted<S: Scalar>(
    parent: &Circuit<S>,
    ids: Seq<DeviceId>,
    l2g: Seq<NodeId>,
    devices: Seq<Device<S>>,
    count: nat,
) -> bool {
    &&& l2g == node_list(parent, ids, count)
    &&& devices.len() == count
    &&& forall|k: int|
        0 <= k < count ==> redrawn(
            parent.devices@[ids[k].0 as int],
            local_ids(l2g, parent.devices@[ids[k].0 as int].spec_nodes()),
            #[trigger] devices[k],
        )
}

/// Whether a sub-circuit is the first `count` listed devices of the parent, and
/// nothing else.
pub open spec fn is_extract<S: Scalar>(
    parent: &Circuit<S>,
    ids: Seq<DeviceId>,
    sub: &SubCircuit<S>,
    count: nat,
) -> bool {
    &&& sub.wf(parent)
    &&& sub.circuit.temp_c == parent.temp_c
    &&& extracted(parent, ids, sub.l2g@, sub.circuit.devices@, count)
}

/// Interning keeps what is listed and lists what is interned.
pub proof fn lemma_interned_all(l2g: Seq<NodeId>, nodes: Seq<NodeId>, count: nat)
    requires
        count <= nodes.len(),
    ensures
        l2g.len() <= interned_all(l2g, nodes, count).len() <= l2g.len() + count,
        forall|i: int|
            0 <= i < l2g.len() ==> #[trigger] interned_all(l2g, nodes, count)[i] == l2g[i],
        l2g.contains(NodeId(0)) ==> forall|i: int|
            0 <= i < count ==> interned_all(l2g, nodes, count).contains(#[trigger] nodes[i]),
    decreases count,
{
    if count > 0 {
        let below = (count - 1) as nat;
        lemma_interned_all(l2g, nodes, below);
        let before = interned_all(l2g, nodes, below);
        let after = interned_all(l2g, nodes, count);
        if l2g.contains(NodeId(0)) {
            let z = choose|z: int| 0 <= z < l2g.len() && l2g[z] == NodeId(0);
            assert(after[z] == NodeId(0));
            assert forall|i: int| 0 <= i < count implies after.contains(#[trigger] nodes[i]) by {
                if i < count - 1 {
                    assert(before.contains(nodes[i]));
                    let k = choose|k: int| 0 <= k < before.len() && before[k] == nodes[i];
                    assert(after[k] == nodes[i]);
                } else if nodes[i].0 == 0 {
                    assert(nodes[i] == NodeId(0));
                } else if !before.contains(nodes[i]) {
                    assert(after[before.len() as int] == nodes[i]);
                }
            }
        }
    }
}

/// A node keeps its local number when the list grows.
pub proof fn lemma_local_ids_stay(a: Seq<NodeId>, b: Seq<NodeId>, nodes: Seq<NodeId>)
    requires
        a.no_duplicates(),
        b.no_duplicates(),
        a.len() <= b.len(),
        forall|i: int| 0 <= i < a.len() ==> #[trigger] b[i] == a[i],
        forall|i: int| 0 <= i < nodes.len() ==> a.contains(#[trigger] nodes[i]),
    ensures
        local_ids(a, nodes) == local_ids(b, nodes),
{
    assert forall|i: int| 0 <= i < nodes.len() implies #[trigger] local_ids(a, nodes)[i]
        == local_ids(b, nodes)[i] by {
        let k = choose|k: int| 0 <= k < a.len() && a[k] == nodes[i];
        lemma_index_of(a, k);
        lemma_index_of(b, k);
        assert(b[k] == a[k]);
    }
    assert(local_ids(a, nodes) =~= local_ids(b, nodes));
}

/// The nodes of an extract are listed.
pub proof fn lemma_node_list<S: Scalar>(parent: &Circuit<S>, ids: Seq<DeviceId>, count: nat, d: int)
    requires
        count <= ids.len(),
        0 <= d < count,
    ensures
        node_list(parent, ids, count).contains(NodeId(0)),
        forall|i: int|
            0 <= i < parent.devices@[ids[d].0 as int].spec_nodes().len() ==> node_list(
                parent,
                ids,
                count,
            ).contains(#[trigger] parent.devices@[ids[d].0 as int].spec_nodes()[i]),
    decreases count,
{
    let below = (count - 1) as nat;
    let nodes = parent.devices@[ids[count - 1].0 as int].spec_nodes();
    let before = node_list(parent, ids, below);
    let after = node_list(parent, ids, count);
    lemma_ground_listed(parent, ids, below);
    lemma_ground_listed(parent, ids, count);
    lemma_interned_all(before, nodes, nodes.len());
    if d < count - 1 {
        lemma_node_list(parent, ids, below, d);
        let mine = parent.devices@[ids[d].0 as int].spec_nodes();
        assert forall|i: int| 0 <= i < mine.len() implies after.contains(#[trigger] mine[i]) by {
            assert(before.contains(mine[i]));
            let k = choose|k: int| 0 <= k < before.len() && before[k] == mine[i];
            assert(after[k] == mine[i]);
        }
    }
}

pub proof fn lemma_ground_listed<S: Scalar>(parent: &Circuit<S>, ids: Seq<DeviceId>, count: nat)
    requires
        count <= ids.len(),
    ensures
        node_list(parent, ids, count).len() > 0,
        node_list(parent, ids, count)[0] == NodeId(0),
        node_list(parent, ids, count).contains(NodeId(0)),
        node_list(parent, ids, count).len() <= 1 + mentions(parent, ids, count),
    decreases count,
{
    if count > 0 {
        lemma_ground_listed(parent, ids, (count - 1) as nat);
        let nodes = parent.devices@[ids[count - 1].0 as int].spec_nodes();
        lemma_interned_all(node_list(parent, ids, (count - 1) as nat), nodes, nodes.len());
    }
    assert(node_list(parent, ids, count)[0] == NodeId(0));
}

pub proof fn lemma_mentions_grow<S: Scalar>(
    parent: &Circuit<S>,
    ids: Seq<DeviceId>,
    a: nat,
    b: nat,
)
    requires
        a <= b,
    ensures
        mentions(parent, ids, a) <= mentions(parent, ids, b),
    decreases b,
{
    if a < b {
        lemma_mentions_grow(parent, ids, a, (b - 1) as nat);
    }
}

/// The listed devices of the parent as a circuit of their own.
pub fn extract<S: Scalar>(parent: &Circuit<S>, ids: &Vec<DeviceId>) -> (r: SubCircuit<S>)
    requires
        parent.wf(),
        unclaimed(parent.node_names()),
        forall|k: int| 0 <= k < ids@.len() ==> (#[trigger] ids@[k]).0 < parent.devices@.len(),
        ids@.len() <= u32::MAX,
        1 + mentions(parent, ids@, ids@.len()) <= u32::MAX,
    ensures
        is_extract(parent, ids@, &r, ids@.len()),
{
    let mut sub: SubCircuit<S> = SubCircuit::new(parent);
    let mut k: usize = 0;
    while k < ids.len()
        invariant
            k <= ids@.len() <= u32::MAX,
            parent.wf(),
            forall|k: int| 0 <= k < ids@.len() ==> (#[trigger] ids@[k]).0 < parent.devices@.len(),
            1 + mentions(parent, ids@, ids@.len()) <= u32::MAX,
            is_extract(parent, ids@, &sub, k as nat),
        decreases ids@.len() - k,
    {
        let ghost before = sub;
        let id = ids[k];
        proof {
            lemma_mentions_grow(parent, ids@, (k + 1) as nat, ids@.len());
            lemma_ground_listed(parent, ids@, k as nat);
        }
        let local = sub.copy(parent, id);
        proof {
            let nodes = parent.devices@[id.0 as int].spec_nodes();
            lemma_interned_all(before.l2g@, nodes, nodes.len());
            assert forall|j: int| 0 <= j < k + 1 implies redrawn(
                parent.devices@[ids@[j].0 as int],
                local_ids(sub.l2g@, parent.devices@[ids@[j].0 as int].spec_nodes()),
                #[trigger] sub.circuit.devices@[j],
            ) by {
                if j < k {
                    assert(sub.circuit.devices@.drop_last()[j] == before.circuit.devices@[j]);
                    let mine = parent.devices@[ids@[j].0 as int].spec_nodes();
                    lemma_node_list(parent, ids@, k as nat, j);
                    lemma_local_ids_stay(before.l2g@, sub.l2g@, mine);
                }
            }
        }
        k = k + 1;
    }
    sub
}

} // verus!
