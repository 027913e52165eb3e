//! Which devices each solve group solves, and what is replayed into it.
use vstd::prelude::*;

use crate::circuit::{DeviceId, NodeId};
use crate::ids;
use crate::ids::ascending;

verus! {

/// A node solved in one group and replayed into another.
#[derive(Debug, Clone, Copy)]
pub struct FreeTear {
    pub node: NodeId,
    pub upstream: usize,
    pub downstream: usize,
}

/// A driver group that is copied into its consumers and never solved on its own.
#[derive(Debug)]
pub struct Absorption {
    pub driver_group: usize,
    pub consumers: Vec<usize>,
}

/// The solve groups of a decomposition.
#[derive(Debug)]
pub struct StageDag {
    /// The conduction islands of each group.
    pub groups: Vec<Vec<usize>>,
    /// The groups of each stage, in the order they are solved.
    pub stages: Vec<Vec<usize>>,
    pub free_tears: Vec<FreeTear>,
    pub drivers: Vec<Absorption>,
    /// The devices of each conduction island.
    pub islands: Vec<Vec<DeviceId>>,
    /// The conduction island of each node.
    pub node_island: Vec<Option<usize>>,
}

/// The devices of the first `count` listed islands.
pub open spec fn island_devices(
    islands: Seq<Vec<DeviceId>>,
    list: Seq<usize>,
    count: nat,
) -> Seq<DeviceId>
    decreases count,
{
    if count == 0 {
        Seq::empty()
    } else {
        island_devices(islands, list, (count - 1) as nat) + islands[list[count - 1] as int]@
    }
}

/// The last driver entry of a group among the first `count`.
pub open spec fn driver_entry(drivers: Seq<Absorption>, group: int, count: nat) -> Option<int>
    decreases count,
{
    if count == 0 {
        None
    } else if drivers[count - 1].driver_group == group {
        Some(count - 1)
    } else {
        driver_entry(drivers, group, (count - 1) as nat)
    }
}

fn append(out: &mut Vec<DeviceId>, more: &Vec<DeviceId>)
    ensures
        final(out)@ == old(out)@ + more@,
{
    let ghost start = out@;
    let mut i: usize = 0;
    while i < more.len()
        invariant
            i <= more@.len(),
            out@ == start + more@.take(i as int),
        decreases more@.len() - i,
    {
        out.push(more[i]);
        assert(more@.take(i + 1) =~= more@.take(i as int).push(more@[i as int]));
        i = i + 1;
    }
    assert(more@.take(i as int) =~= more@);
}

/// The group of an island after the first `count` groups were listed.
pub open spec fn group_of_island(groups: Seq<Vec<usize>>, island: int, count: nat) -> Option<int>
    decreases count,
{
    if count == 0 {
        None
    } else if groups[count - 1]@.contains(island as usize) {
        Some(count - 1)
    } else {
        group_of_island(groups, island, (count - 1) as nat)
    }
}

/// Whether a list of numbers has one.
pub fn has_number(list: &Vec<usize>, n: usize) -> (r: bool)
    ensures
        r == list@.contains(n),
{
    let mut i: usize = 0;
    while i < list.len()
        invariant
            i <= list@.len(),
            forall|j: int| 0 <= j < i ==> list@[j] != n,
        decreases list@.len() - i,
    {
        if list[i] == n {
            assert(list@[i as int] == n);
            return true;
        }
        i = i + 1;
    }
    false
}

impl StageDag {
    /// Every number refers to something.
    pub open spec fn wf(&self) -> bool {
        &&& forall|g: int, k: int|
            #![trigger self.groups@[g]@[k]]
            0 <= g < self.groups@.len() && 0 <= k < self.groups@[g]@.len()
                ==> self.groups@[g]@[k] < self.islands@.len()
        &&& forall|k: int|
            0 <= k < self.drivers@.len() ==> (#[trigger] self.drivers@[k]).driver_group
                < self.groups@.len()
        &&& forall|n: int|
            0 <= n < self.node_island@.len() ==> match #[trigger] self.node_island@[n] {
                Some(i) => i < self.islands@.len(),
                None => true,
            }
    }

    /// The devices of a group's own islands.
    pub open spec fn own_devices(&self, g: int) -> Seq<DeviceId> {
        island_devices(self.islands@, self.groups@[g]@, self.groups@[g]@.len())
    }

    /// Whether a group is copied into its consumers.
    pub open spec fn absorbed(&self, g: int) -> bool {
        driver_entry(self.drivers@, g, self.drivers@.len()) is Some
    }

    /// The consumers of an absorbed group.
    pub open spec fn consumers(&self, g: int) -> Seq<usize> {
        self.drivers@[driver_entry(self.drivers@, g, self.drivers@.len())->0].consumers@
    }

    /// The devices of a group with those of the first `count` groups that it
    /// consumes, in the order of the groups.
    pub open spec fn solved_devices(&self, g: int, count: nat) -> Seq<DeviceId>
        decreases count,
    {
        if count == 0 {
            self.own_devices(g)
        } else {
            let rest = self.solved_devices(g, (count - 1) as nat);
            let d = count - 1;
            if self.absorbed(d) && self.consumers(d).contains(g as usize) {
                rest + self.own_devices(d)
            } else {
                rest
            }
        }
    }

    pub fn group_devices(&self, g: usize) -> (r: Vec<DeviceId>)
        requires
            self.wf(),
            g < self.groups@.len(),
        ensures
            r@ == self.own_devices(g as int),
    {
        let mut out: Vec<DeviceId> = Vec::new();
        let mut k: usize = 0;
        while k < self.groups[g].len()
            invariant
                self.wf(),
                g < self.groups@.len(),
                k <= self.groups@[g as int]@.len(),
                out@ == island_devices(self.islands@, self.groups@[g as int]@, k as nat),
            decreases self.groups@[g as int]@.len() - k,
        {
            let isl: usize = self.groups[g][k];
            assert(self.groups@[g as int]@[k as int] < self.islands@.len());
            append(&mut out, &self.islands[isl]);
            k = k + 1;
        }
        out
    }

    fn entry(&self, g: usize) -> (r: Option<usize>)
        ensures
            match driver_entry(self.drivers@, g as int, self.drivers@.len()) {
                Some(k) => r matches Some(x) && x == k && x < self.drivers@.len(),
                None => r is None,
            },
    {
        let mut i: usize = self.drivers.len();
        while i > 0
            invariant
                i <= self.drivers@.len(),
                driver_entry(self.drivers@, g as int, self.drivers@.len()) == driver_entry(
                    self.drivers@,
                    g as int,
                    i as nat,
                ),
            decreases i,
        {
            if self.drivers[i - 1].driver_group == g {
                return Some(i - 1);
            }
            i = i - 1;
        }
        None
    }

    /// Whether a group is copied and never solved on its own.
    pub fn is_absorbed(&self, g: usize) -> (r: bool)
        ensures
            r == self.absorbed(g as int),
    {
        match self.entry(g) {
            Some(_) => true,
            None => false,
        }
    }

    /// Everything a group solves: its own devices, and a copy of every driver that
    /// was absorbed into it. The order is a function of the decomposition alone, so
    /// two runs build the same circuit.
    pub fn devices_of(&self, g: usize) -> (r: Vec<DeviceId>)
        requires
            self.wf(),
            g < self.groups@.len(),
        ensures
            r@ == self.solved_devices(g as int, self.groups@.len()),
    {
        let mut out: Vec<DeviceId> = self.group_devices(g);
        let mut d: usize = 0;
        while d < self.groups.len()
            invariant
                d <= self.groups@.len(),
                self.wf(),
                g < self.groups@.len(),
                out@ == self.solved_devices(g as int, d as nat),
            decreases self.groups@.len() - d,
        {
            match self.entry(d) {
                Some(k) => {
                    if has_number(&self.drivers[k].consumers, g) {
                        let more = self.group_devices(d);
                        append(&mut out, &more);
                    }
                },
                None => {},
            }
            d = d + 1;
        }
        out
    }

    /// The group that conducts a node, if any does.
    pub open spec fn owner(&self, n: NodeId) -> Option<int> {
        if n.0 < self.node_island@.len() {
            match self.node_island@[n.0 as int] {
                Some(i) => group_of_island(self.groups@, i as int, self.groups@.len()),
                None => None,
            }
        } else {
            None
        }
    }

    pub fn group_of_node(&self, n: NodeId) -> (r: Option<usize>)
        ensures
            match self.owner(n) {
                Some(g) => r matches Some(x) && x == g && x < self.groups@.len(),
                None => r is None,
            },
    {
        if (n.0 as usize) >= self.node_island.len() {
            return None;
        }
        let isl: usize = match self.node_island[n.0 as usize] {
            Some(i) => i,
            None => {
                return None;
            },
        };
        let mut g: usize = self.groups.len();
        while g > 0
            invariant
                g <= self.groups@.len(),
                self.owner(n) == group_of_island(self.groups@, isl as int, g as nat),
            decreases g,
        {
            if has_number(&self.groups[g - 1], isl) {
                return Some(g - 1);
            }
            g = g - 1;
        }
        None
    }

    /// The group whose run a node is read from: the group that conducts it, or the
    /// first consumer of that group where it was absorbed. The copies carry no
    /// current out, so they cannot differ.
    pub open spec fn read_from(&self, n: NodeId) -> Option<int> {
        match self.owner(n) {
            Some(g) => if self.absorbed(g) {
                if self.consumers(g).len() > 0 {
                    Some(self.consumers(g)[0] as int)
                } else {
                    None
                }
            } else {
                Some(g)
            },
            None => None,
        }
    }

    pub fn run_of_node(&self, n: NodeId) -> (r: Option<usize>)
        ensures
            match self.read_from(n) {
                Some(g) => r matches Some(x) && x == g,
                None => r is None,
            },
    {
        match self.group_of_node(n) {
            Some(g) => match self.entry(g) {
                Some(k) => if self.drivers[k].consumers.len() > 0 {
                    Some(self.drivers[k].consumers[0])
                } else {
                    None
                },
                None => Some(g),
            },
            None => None,
        }
    }

    /// Whether one of the first `count` tears replays a node into a group.
    pub open spec fn replayed(&self, g: int, n: NodeId, count: int) -> bool {
        exists|t: int|
            0 <= t < count && (#[trigger] self.free_tears@[t]).downstream == g
                && self.free_tears@[t].node == n && !self.absorbed(
                self.free_tears@[t].upstream as int,
            )
    }

    /// The nodes replayed into a group, ascending. A tear whose upstream was
    /// absorbed needs no replay: its devices are in the group.
    pub fn replay_nodes(&self, g: usize) -> (r: Vec<NodeId>)
        ensures
            ascending(r@),
            forall|n: NodeId|
                #[trigger] r@.contains(n) <==> self.replayed(
                    g as int,
                    n,
                    self.free_tears@.len() as int,
                ),
    {
        let mut out: Vec<NodeId> = Vec::new();
        let mut t: usize = 0;
        while t < self.free_tears.len()
            invariant
                t <= self.free_tears@.len(),
                ascending(out@),
                forall|n: NodeId|
                    #[trigger] out@.contains(n) <==> self.replayed(g as int, n, t as int),
            decreases self.free_tears@.len() - t,
        {
            let ghost before = out@;
            let tear = self.free_tears[t];
            let wanted: bool = tear.downstream == g && !self.is_absorbed(tear.upstream);
            if wanted {
                ids::insert(&mut out, tear.node);
            }
            proof {
                assert forall|n: NodeId| #[trigger] out@.contains(n) <==> self.replayed(
                    g as int,
                    n,
                    t + 1,
                ) by {
                    assert(before.contains(n) <==> self.replayed(g as int, n, t as int));
                    if self.replayed(g as int, n, t as int) {
                        let k = choose|k: int|
                            0 <= k < t && (#[trigger] self.free_tears@[k]).downstream == g
                                && self.free_tears@[k].node == n && !self.absorbed(
                                self.free_tears@[k].upstream as int,
                            );
                        assert(self.free_tears@[k].downstream == g);
                    }
                    if wanted && n == tear.node {
                        assert(self.free_tears@[t as int].downstream == g);
                    }
                }
            }
            t = t + 1;
        }
        out
    }

    /// Whether a group's run is captured at a node for later stages.
    pub open spec fn captured_at(&self, g: int, n: NodeId, count: int) -> bool {
        exists|t: int|
            0 <= t < count && (#[trigger] self.free_tears@[t]).upstream == g
                && self.free_tears@[t].node == n
    }

    /// The groups solved, in order: every group of every stage that was not
    /// absorbed.
    pub open spec fn solve_order(&self, stage: nat, within: nat) -> Seq<usize>
        decreases stage, within,
    {
        if within > 0 && stage < self.stages@.len() {
            let g = self.stages@[stage as int]@[within - 1];
            let rest = self.solve_order(stage, (within - 1) as nat);
            if self.absorbed(g as int) {
                rest
            } else {
                rest.push(g)
            }
        } else if stage == 0 {
            Seq::empty()
        } else {
            self.solve_order((stage - 1) as nat, self.stages@[stage - 1]@.len())
        }
    }

    /// The groups to solve, in order.
    pub fn order(&self) -> (r: Vec<usize>)
        ensures
            r@ == self.solve_order(self.stages@.len(), 0),
    {
        let mut out: Vec<usize> = Vec::new();
        let mut s: usize = 0;
        while s < self.stages.len()
            invariant
                s <= self.stages@.len(),
                out@ == self.solve_order(s as nat, 0),
            decreases self.stages@.len() - s,
        {
            let mut k: usize = 0;
            while k < self.stages[s].len()
                invariant
                    s < self.stages@.len(),
                    k <= self.stages@[s as int]@.len(),
                    out@ == self.solve_order(s as nat, k as nat),
                decreases self.stages@[s as int]@.len() - k,
            {
                let g: usize = self.stages[s][k];
                if !self.is_absorbed(g) {
                    out.push(g);
                }
                k = k + 1;
            }
            s = s + 1;
        }
        out
    }
}

proof fn lemma_order(dag: &StageDag, stage: nat, within: nat, i: int)
    requires
        stage <= dag.stages@.len(),
        stage < dag.stages@.len() ==> within <= dag.stages@[stage as int]@.len(),
        0 <= i < dag.solve_order(stage, within).len(),
    ensures
        !dag.absorbed(dag.solve_order(stage, within)[i] as int),
    decreases stage, within,
{
    if within > 0 && stage < dag.stages@.len() {
        let rest = dag.solve_order(stage, (within - 1) as nat);
        if i < rest.len() {
            lemma_order(dag, stage, (within - 1) as nat, i);
        }
    } else if stage > 0 {
        lemma_order(dag, (stage - 1) as nat, dag.stages@[stage - 1]@.len(), i);
    }
}

/// An absorbed group is never solved on its own.
pub proof fn law_absorbed_groups_are_not_solved(dag: &StageDag, i: int)
    requires
        0 <= i < dag.solve_order(dag.stages@.len(), 0).len(),
    ensures
        !dag.absorbed(dag.solve_order(dag.stages@.len(), 0)[i] as int),
{
    lemma_order(dag, dag.stages@.len(), 0, i);
}

} // verus!
