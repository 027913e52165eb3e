//! Which blocks each candidate's capture solves.
use vstd::prelude::*;

use crate::circuit::{Circuit, Device, DeviceId, NodeId};
use crate::orchestrate::capture::CapturePolicy;
use crate::scalar::Scalar;

verus! {

/// A device that reads a node without conducting it.
#[derive(Clone, Copy, Debug, PartialEq, Eq, Structural)]
pub struct SenseEdge {
    pub device: DeviceId,
    pub node: NodeId,
}

/// Which nodes and devices are joined by conduction, and who senses what.
#[derive(Debug)]
pub struct ConductionGraph {
    /// The devices of each conduction island.
    pub islands: Vec<Vec<DeviceId>>,
    /// The island of each node, if anything conducts it.
    pub node_island: Vec<Option<usize>>,
    pub sense_edges: Vec<SenseEdge>,
}

impl ConductionGraph {
    /// The island of a node, if anything conducts it.
    pub open spec fn island_of(&self, n: NodeId) -> Option<usize> {
        if n.0 < self.node_island@.len() {
            self.node_island@[n.0 as int]
        } else {
            None
        }
    }

    /// Every node of the circuit is listed, and every id refers to something.
    pub open spec fn wf<S: Scalar>(&self, sub: &Circuit<S>) -> bool {
        &&& self.node_island@.len() == sub.spec_max_node() + 1
        &&& forall|n: int|
            0 <= n < self.node_island@.len() ==> match #[trigger] self.node_island@[n] {
                Some(i) => i < self.islands@.len(),
                None => true,
            }
        &&& forall|e: int|
            0 <= e < self.sense_edges@.len() ==> (#[trigger] self.sense_edges@[e]).device.0
                < sub.devices@.len()
    }
}

/// An island cut into blocks at its bound nodes.
#[derive(Debug)]
pub struct Fragmentation {
    /// The block of each device, if it has one.
    pub device_block: Vec<Option<usize>>,
    /// The block of each node, if it has one.
    pub node_block: Vec<Option<usize>>,
    /// Number of blocks.
    pub count: usize,
}

impl Fragmentation {
    /// The block of a node, if it has one.
    pub open spec fn block_of(&self, n: NodeId) -> Option<usize> {
        if n.0 < self.node_block@.len() {
            self.node_block@[n.0 as int]
        } else {
            None
        }
    }

    pub open spec fn wf<S: Scalar>(&self, sub: &Circuit<S>) -> bool {
        &&& self.device_block@.len() == sub.devices@.len()
        &&& forall|d: int|
            0 <= d < self.device_block@.len() ==> match #[trigger] self.device_block@[d] {
                Some(b) => b < self.count,
                None => true,
            }
        &&& forall|n: int|
            0 <= n < self.node_block@.len() ==> match #[trigger] self.node_block@[n] {
                Some(b) => b < self.count,
                None => true,
            }
    }
}

/// The one island of all candidates, or why there is none.
pub fn scope(graph: &ConductionGraph, candidates: &Vec<NodeId>) -> (r: Result<usize, &'static str>)
    requires
        candidates@.len() > 0,
    ensures
        match r {
            Ok(island) => forall|i: int|
                0 <= i < candidates@.len() ==> graph.island_of(#[trigger] candidates@[i]) == Some(
                    island,
                ),
            Err(note) => {
                ||| note@ == "a candidate nobody conducts"@ && exists|i: int|
                    0 <= i < candidates@.len() && graph.island_of(#[trigger] candidates@[i]) is None
                ||| note@ == "candidates span multiple conduction islands"@ && (forall|i: int|
                    0 <= i < candidates@.len() ==> graph.island_of(
                        #[trigger] candidates@[i],
                    ) is Some) && exists|i: int|
                    0 <= i < candidates@.len() && graph.island_of(#[trigger] candidates@[i])
                        != graph.island_of(candidates@[0])
            },
        },
{
    let mut i: usize = 0;
    let mut island: Option<usize> = None;
    let mut split: bool = false;
    while i < candidates.len()
        invariant
            i <= candidates@.len(),
            i == 0 ==> island is None,
            i > 0 ==> island is Some && island == graph.island_of(candidates@[0]),
            forall|j: int|
                0 <= j < i ==> graph.island_of(#[trigger] candidates@[j]) is Some,
            split <==> exists|j: int|
                0 <= j < i && graph.island_of(#[trigger] candidates@[j]) != graph.island_of(
                    candidates@[0],
                ),
        decreases candidates@.len() - i,
    {
        let n = candidates[i];
        let own: Option<usize> = if (n.0 as usize) < graph.node_island.len() {
            graph.node_island[n.0 as usize]
        } else {
            None
        };
        assert(own == graph.island_of(candidates@[i as int]));
        match own {
            None => {
                return Err("a candidate nobody conducts");
            },
            Some(k) => match island {
                None => {
                    island = Some(k);
                },
                Some(first) => {
                    if first != k {
                        split = true;
                    }
                },
            },
        }
        proof {
            let k = i as int;
            let other = |j: int| graph.island_of(candidates@[j]) != graph.island_of(candidates@[0]);
            if other(k) {
                assert(graph.island_of(candidates@[k]) != graph.island_of(candidates@[0]));
            }
            if exists|j: int|
                0 <= j < i && graph.island_of(#[trigger] candidates@[j]) != graph.island_of(
                    candidates@[0],
                ) {
                let j = choose|j: int|
                    0 <= j < i && graph.island_of(#[trigger] candidates@[j]) != graph.island_of(
                        candidates@[0],
                    );
                assert(0 <= j < i + 1 && graph.island_of(candidates@[j]) != graph.island_of(
                    candidates@[0],
                ));
            }
        }
        i = i + 1;
    }
    match island {
        Some(k) => {
            if split {
                return Err("candidates span multiple conduction islands");
            }
            assert forall|j: int| 0 <= j < candidates@.len() implies graph.island_of(
                #[trigger] candidates@[j],
            ) == Some(k) by {}
            Ok(k)
        },
        None => Err("a candidate nobody conducts"),
    }
}

/// The devices among the first `count` that an island does not hold.
pub open spec fn outside(island: Seq<DeviceId>, count: nat) -> Seq<DeviceId>
    decreases count,
{
    if count == 0 {
        Seq::empty()
    } else {
        let id = DeviceId((count - 1) as u32);
        let rest = outside(island, (count - 1) as nat);
        if island.contains(id) {
            rest
        } else {
            rest.push(id)
        }
    }
}

fn listed_device(list: &Vec<DeviceId>, id: DeviceId) -> (r: bool)
    ensures
        r == list@.contains(id),
{
    let mut i: usize = 0;
    while i < list.len()
        invariant
            i <= list@.len(),
            forall|j: int| 0 <= j < i ==> list@[j] != id,
        decreases list@.len() - i,
    {
        if list[i] == id {
            assert(list@[i as int] == id);
            return true;
        }
        i = i + 1;
    }
    false
}

/// The devices outside an island: they hold the sensed boundaries, so they ride
/// into every capture.
pub fn companions<S: Scalar>(
    sub: &Circuit<S>,
    graph: &ConductionGraph,
    island: usize,
) -> (r: Vec<DeviceId>)
    requires
        sub.wf(),
        island < graph.islands@.len(),
    ensures
        r@ == outside(graph.islands@[island as int]@, sub.devices@.len()),
{
    let mut out: Vec<DeviceId> = Vec::new();
    let mut d: usize = 0;
    while d < sub.devices.len()
        invariant
            d <= sub.devices@.len(),
            sub.wf(),
            island < graph.islands@.len(),
            out@ == outside(graph.islands@[island as int]@, d as nat),
        decreases sub.devices@.len() - d,
    {
        let id = DeviceId(d as u32);
        if !listed_device(&graph.islands[island], id) {
            out.push(id);
        }
        d = d + 1;
    }
    out
}

/// Whether a node is a boundary: a candidate, or held.
pub open spec fn is_bound(candidates: Seq<NodeId>, held: Seq<NodeId>, n: int) -> bool {
    candidates.contains(NodeId(n as u32)) || held.contains(NodeId(n as u32))
}

/// Which nodes `0..=top` are boundaries.
pub fn boundary(candidates: &Vec<NodeId>, held: &Vec<NodeId>, top: u32) -> (r: Vec<bool>)
    requires
        top < usize::MAX,
    ensures
        r@.len() == top + 1,
        forall|n: int| 0 <= n <= top ==> #[trigger] r@[n] == is_bound(candidates@, held@, n),
{
    let mut out: Vec<bool> = Vec::new();
    let total: usize = top as usize + 1;
    let mut n: usize = 0;
    while n < total
        invariant
            n <= total == top + 1,
            out@.len() == n,
            forall|k: int| 0 <= k < n ==> #[trigger] out@[k] == is_bound(candidates@, held@, k),
        decreases total - n,
    {
        let id = NodeId(n as u32);
        let hit: bool = has_node(candidates, id) || has_node(held, id);
        out.push(hit);
        n = n + 1;
    }
    out
}

pub fn has_node(list: &Vec<NodeId>, id: NodeId) -> (r: bool)
    ensures
        r == list@.contains(id),
{
    let mut i: usize = 0;
    while i < list.len()
        invariant
            i <= list@.len(),
            forall|j: int| 0 <= j < i ==> list@[j] != id,
        decreases list@.len() - i,
    {
        if list[i] == id {
            assert(list@[i as int] == id);
            return true;
        }
        i = i + 1;
    }
    false
}

/// Whether a device conducts a node.
pub open spec fn conducts<S>(dev: Device<S>, n: NodeId) -> bool {
    n.0 != 0 && dev.spec_conduction_nodes().contains(n)
}

pub fn conducts_node<S: Scalar>(dev: &Device<S>, n: NodeId) -> (r: bool)
    ensures
        r == conducts(*dev, n),
{
    let nodes = dev.conduction_nodes();
    !n.is_ground() && has_node(&nodes, n)
}

/// Whether a block holds a device that conducts the node.
pub open spec fn adjoins<S: Scalar>(
    sub: &Circuit<S>,
    frag: &Fragmentation,
    n: NodeId,
    b: int,
    count: int,
) -> bool {
    exists|d: int|
        0 <= d < count && frag.device_block@[d] == Some(b as usize) && conducts(
            #[trigger] sub.devices@[d],
            n,
        )
}

/// Which blocks adjoin a node.
pub fn adjacent_blocks<S: Scalar>(
    sub: &Circuit<S>,
    frag: &Fragmentation,
    n: NodeId,
) -> (r: Vec<bool>)
    requires
        frag.wf(sub),
    ensures
        r@.len() == frag.count,
        forall|b: int|
            0 <= b < frag.count ==> #[trigger] r@[b] == adjoins(
                sub,
                frag,
                n,
                b,
                sub.devices@.len() as int,
            ),
{
    let mut out: Vec<bool> = no_blocks(frag.count);
    let mut d: usize = 0;
    while d < sub.devices.len()
        invariant
            d <= sub.devices@.len(),
            frag.wf(sub),
            out@.len() == frag.count,
            forall|b: int|
                0 <= b < frag.count ==> #[trigger] out@[b] == adjoins(sub, frag, n, b, d as int),
        decreases sub.devices@.len() - d,
    {
        let ghost before = out@;
        let own = frag.device_block[d];
        let hit: bool = conducts_node(&sub.devices[d], n);
        match own {
            Some(b) => {
                if hit {
                    out.set(b, true);
                }
            },
            None => {},
        }
        assert forall|b: int| 0 <= b < frag.count implies #[trigger] out@[b] == adjoins(
            sub,
            frag,
            n,
            b,
            d + 1,
        ) by {
            assert(before[b] == adjoins(sub, frag, n, b, d as int));
            if own == Some(b as usize) && hit {
                assert(conducts(sub.devices@[d as int], n));
            }
            if before[b] {
                let k = choose|k: int|
                    0 <= k < d && frag.device_block@[k] == Some(b as usize) && conducts(
                        #[trigger] sub.devices@[k],
                        n,
                    );
                assert(conducts(sub.devices@[k], n));
            }
        }
        d = d + 1;
    }
    out
}

fn no_blocks(count: usize) -> (r: Vec<bool>)
    ensures
        r@ == Seq::new(count as nat, |b: int| false),
{
    let mut out: Vec<bool> = Vec::new();
    let mut b: usize = 0;
    while b < count
        invariant
            b <= count,
            out@ == Seq::new(b as nat, |k: int| false),
        decreases count - b,
    {
        out.push(false);
        assert(out@ =~= Seq::new((b + 1) as nat, |k: int| false));
        b = b + 1;
    }
    out
}

/// Whether a set of blocks is empty.
pub fn none_set(set: &Vec<bool>) -> (r: bool)
    ensures
        r <==> forall|b: int| 0 <= b < set@.len() ==> !#[trigger] set@[b],
{
    let mut b: usize = 0;
    while b < set.len()
        invariant
            b <= set@.len(),
            forall|k: int| 0 <= k < b ==> !#[trigger] set@[k],
        decreases set@.len() - b,
    {
        if set[b] {
            return false;
        }
        b = b + 1;
    }
    true
}

/// Number of devices of a block among the first `count`.
pub open spec fn block_size(blocks: Seq<Option<usize>>, b: int, count: nat) -> nat
    decreases count,
{
    if count == 0 {
        0
    } else {
        let rest = block_size(blocks, b, (count - 1) as nat);
        if blocks[count - 1] == Some(b as usize) {
            rest + 1
        } else {
            rest
        }
    }
}

pub proof fn lemma_block_size(blocks: Seq<Option<usize>>, b: int, count: nat)
    ensures
        block_size(blocks, b, count) <= count,
    decreases count,
{
    if count > 0 {
        lemma_block_size(blocks, b, (count - 1) as nat);
    }
}

/// The number of devices of each block.
pub fn block_sizes<S: Scalar>(sub: &Circuit<S>, frag: &Fragmentation) -> (r: Vec<usize>)
    requires
        frag.wf(sub),
    ensures
        r@.len() == frag.count,
        forall|b: int|
            0 <= b < frag.count ==> #[trigger] r@[b] == block_size(
                frag.device_block@,
                b,
                frag.device_block@.len(),
            ),
{
    let mut out: Vec<usize> = Vec::new();
    let mut b: usize = 0;
    while b < frag.count
        invariant
            b <= frag.count,
            out@.len() == b,
            forall|k: int|
                0 <= k < b ==> #[trigger] out@[k] == block_size(frag.device_block@, k, 0),
        decreases frag.count - b,
    {
        out.push(0);
        b = b + 1;
    }
    let mut d: usize = 0;
    while d < frag.device_block.len()
        invariant
            d <= frag.device_block@.len(),
            frag.wf(sub),
            out@.len() == frag.count,
            forall|k: int|
                0 <= k < frag.count ==> #[trigger] out@[k] == block_size(
                    frag.device_block@,
                    k,
                    d as nat,
                ),
        decreases frag.device_block@.len() - d,
    {
        match frag.device_block[d] {
            Some(b) => {
                let was: usize = out[b];
                proof {
                    assert(out@[b as int] == block_size(frag.device_block@, b as int, d as nat));
                    lemma_block_size(frag.device_block@, b as int, d as nat);
                }
                out.set(b, was + 1);
            },
            None => {},
        }
        d = d + 1;
    }
    out
}

/// The blocks a capture has, those the walk refused as too large, and how many it
/// pulled.
pub struct Growth {
    pub set: Seq<bool>,
    pub rejected: Seq<bool>,
    pub pulled: nat,
}

/// A walk from one candidate into the generation it senses.
pub struct Walk<'a, S> {
    pub sub: &'a Circuit<S>,
    pub graph: &'a ConductionGraph,
    pub frag: &'a Fragmentation,
    pub cand: NodeId,
    pub policy: CapturePolicy,
}

impl<'a, S: Scalar> Walk<'a, S> {
    pub open spec fn wf(&self) -> bool {
        &&& self.sub.wf()
        &&& self.graph.wf(self.sub)
        &&& self.frag.wf(self.sub)
    }

    pub open spec fn size(&self, b: int) -> nat {
        block_size(self.frag.device_block@, b, self.frag.device_block@.len())
    }

    /// Whether the capture holds a device: it conducts the candidate, or its block
    /// is captured.
    pub open spec fn captured(&self, set: Seq<bool>, d: int) -> bool {
        ||| conducts(self.sub.devices@[d], self.cand)
        ||| match self.frag.device_block@[d] {
            Some(b) => set[b as int],
            None => false,
        }
    }

    /// Whether one of the first `count` sense edges leads from a captured device
    /// into a block.
    pub open spec fn sensed(&self, set: Seq<bool>, b: int, count: int) -> bool {
        exists|e: int|
            0 <= e < count && self.captured(
                set,
                (#[trigger] self.graph.sense_edges@[e]).device.0 as int,
            ) && self.frag.block_of(self.graph.sense_edges@[e].node) == Some(b as usize)
    }

    /// Whether the walk proposes a block.
    pub open spec fn fresh(&self, g: Growth, b: int) -> bool {
        self.sensed(g.set, b, self.graph.sense_edges@.len() as int) && !g.set[b] && !g.rejected[b]
    }

    /// One pass over the first `count` blocks: every proposed block is pulled, or
    /// refused as too large, until the budget is spent.
    pub open spec fn pass(&self, start: Growth, count: nat) -> Growth
        decreases count,
    {
        if count == 0 {
            start
        } else {
            let b = count - 1;
            let g = self.pass(start, (count - 1) as nat);
            if g.pulled < self.policy.max_growth_blocks && self.fresh(start, b) {
                if self.size(b) > self.policy.max_block_devices {
                    Growth { set: g.set, rejected: g.rejected.update(b, true), pulled: g.pulled }
                } else {
                    Growth {
                        set: g.set.update(b, true),
                        rejected: g.rejected,
                        pulled: g.pulled + 1,
                    }
                }
            } else {
                g
            }
        }
    }

    /// Passes until one pulls nothing or the budget is spent.
    pub open spec fn grown(&self, g: Growth) -> Growth
        decreases
                if g.pulled < self.policy.max_growth_blocks {
                    self.policy.max_growth_blocks - g.pulled
                } else {
                    0
                },
    {
        let after = self.pass(g, self.frag.count as nat);
        if g.pulled >= self.policy.max_growth_blocks {
            g
        } else if after.pulled <= g.pulled {
            after
        } else {
            self.grown(after)
        }
    }

    /// The growth from plain adjacency.
    pub open spec fn start(&self) -> Growth {
        Growth {
            set: Seq::new(
                self.frag.count as nat,
                |b: int|
                    adjoins(
                        self.sub,
                        self.frag,
                        self.cand,
                        b,
                        self.sub.devices@.len() as int,
                    ),
            ),
            rejected: Seq::new(self.frag.count as nat, |b: int| false),
            pulled: 0,
        }
    }

    /// The blocks of the candidate's capture.
    pub open spec fn capture(&self) -> Growth {
        self.grown(self.start())
    }

    fn holds(&self, set: &Vec<bool>, d: usize) -> (r: bool)
        requires
            self.wf(),
            set@.len() == self.frag.count,
            d < self.sub.devices@.len(),
        ensures
            r == self.captured(set@, d as int),
    {
        if conducts_node(&self.sub.devices[d], self.cand) {
            return true;
        }
        match self.frag.device_block[d] {
            Some(b) => set[b],
            None => false,
        }
    }

    /// Which blocks the captured devices sense.
    fn sensed_blocks(&self, set: &Vec<bool>) -> (r: Vec<bool>)
        requires
            self.wf(),
            set@.len() == self.frag.count,
        ensures
            r@.len() == self.frag.count,
            forall|b: int|
                0 <= b < self.frag.count ==> #[trigger] r@[b] == self.sensed(
                    set@,
                    b,
                    self.graph.sense_edges@.len() as int,
                ),
    {
        let mut out: Vec<bool> = no_blocks(self.frag.count);
        let mut e: usize = 0;
        while e < self.graph.sense_edges.len()
            invariant
                e <= self.graph.sense_edges@.len(),
                self.wf(),
                set@.len() == self.frag.count,
                out@.len() == self.frag.count,
                forall|b: int|
                    0 <= b < self.frag.count ==> #[trigger] out@[b] == self.sensed(
                        set@,
                        b,
                        e as int,
                    ),
            decreases self.graph.sense_edges@.len() - e,
        {
            let ghost before = out@;
            let edge = self.graph.sense_edges[e];
            assert(self.graph.sense_edges@[e as int].device.0 < self.sub.devices@.len());
            let own: Option<usize> = if (edge.node.0 as usize) < self.frag.node_block.len() {
                self.frag.node_block[edge.node.0 as usize]
            } else {
                None
            };
            assert(own == self.frag.block_of(edge.node));
            let hit: bool = self.holds(set, edge.device.0 as usize);
            match own {
                Some(b) => {
                    if hit {
                        out.set(b, true);
                    }
                },
                None => {},
            }
            assert forall|b: int| 0 <= b < self.frag.count implies #[trigger] out@[b]
                == self.sensed(set@, b, e + 1) by {
                assert(before[b] == self.sensed(set@, b, e as int));
                if hit && own == Some(b as usize) {
                    assert(self.captured(
                        set@,
                        self.graph.sense_edges@[e as int].device.0 as int,
                    ));
                }
                if before[b] {
                    let k = choose|k: int|
                        0 <= k < e && self.captured(
                            set@,
                            (#[trigger] self.graph.sense_edges@[k]).device.0 as int,
                        ) && self.frag.block_of(self.graph.sense_edges@[k].node) == Some(
                            b as usize,
                        );
                    assert(self.captured(set@, self.graph.sense_edges@[k].device.0 as int));
                }
            }
            e = e + 1;
        }
        out
    }

    /// Grow the candidate's capture past its load, into what its devices sense.
    pub fn grow(&self) -> (r: (Vec<bool>, usize))
        requires
            self.wf(),
        ensures
            r.0@ == self.capture().set,
            r.0@.len() == self.frag.count,
            r.1 == self.capture().pulled,
    {
        let sizes = block_sizes(self.sub, self.frag);
        let mut set: Vec<bool> = adjacent_blocks(self.sub, self.frag, self.cand);
        let mut rejected: Vec<bool> = no_blocks(self.frag.count);
        let mut pulled: usize = 0;
        let ghost mut g = self.start();
        assert(set@ =~= g.set);
        assert(rejected@ =~= g.rejected);
        let mut going: bool = true;
        while going && pulled < self.policy.max_growth_blocks
            invariant
                self.wf(),
                sizes@.len() == self.frag.count,
                forall|b: int| 0 <= b < self.frag.count ==> #[trigger] sizes@[b] == self.size(b),
                set@.len() == self.frag.count,
                rejected@.len() == self.frag.count,
                set@ == g.set,
                rejected@ == g.rejected,
                pulled == g.pulled,
                going ==> self.capture() == self.grown(g),
                !going ==> self.capture() == g,
            decreases
                    if pulled < self.policy.max_growth_blocks {
                        self.policy.max_growth_blocks - pulled
                    } else {
                        0
                    },
                    if going {
                        1int
                    } else {
                        0
                    },
        {
            let seen = self.sensed_blocks(&set);
            let ghost start = g;
            let before: usize = pulled;
            let mut b: usize = 0;
            while b < self.frag.count
                invariant
                    b <= self.frag.count,
                    self.wf(),
                    sizes@.len() == self.frag.count,
                    forall|k: int|
                        0 <= k < self.frag.count ==> #[trigger] sizes@[k] == self.size(k),
                    seen@.len() == self.frag.count,
                    forall|k: int|
                        0 <= k < self.frag.count ==> #[trigger] seen@[k] == self.sensed(
                            start.set,
                            k,
                            self.graph.sense_edges@.len() as int,
                        ),
                    start.set.len() == self.frag.count,
                    start.rejected.len() == self.frag.count,
                    set@.len() == self.frag.count,
                    rejected@.len() == self.frag.count,
                    set@ == self.pass(start, b as nat).set,
                    rejected@ == self.pass(start, b as nat).rejected,
                    pulled == self.pass(start, b as nat).pulled,
                    pulled >= before == start.pulled,
                    forall|k: int|
                        b <= k < self.frag.count ==> set@[k] == start.set[k] && rejected@[k]
                            == start.rejected[k],
                decreases self.frag.count - b,
            {
                assert(set@[b as int] == start.set[b as int]);
                if pulled < self.policy.max_growth_blocks && seen[b] && !set[b] && !rejected[b] {
                    if sizes[b] > self.policy.max_block_devices {
                        rejected.set(b, true);
                    } else {
                        set.set(b, true);
                        pulled = pulled + 1;
                    }
                }
                b = b + 1;
            }
            proof {
                g = self.pass(start, self.frag.count as nat);
            }
            if pulled == before {
                going = false;
            }
        }
        (set, pulled)
    }
}

/// What every pass keeps: nothing is lost, the budget holds, and only blocks that
/// are too large are refused.
spec fn sound_growth<S: Scalar>(w: &Walk<S>, start: Growth, g: Growth) -> bool {
    &&& g.set.len() == w.frag.count
    &&& g.rejected.len() == w.frag.count
    &&& g.pulled <= w.policy.max_growth_blocks || g.pulled == start.pulled
    &&& forall|b: int| 0 <= b < w.frag.count && start.set[b] ==> #[trigger] g.set[b]
    &&& forall|b: int|
        0 <= b < w.frag.count && #[trigger] g.set[b] && !start.set[b] ==> w.size(b)
            <= w.policy.max_block_devices
    &&& forall|b: int|
        0 <= b < w.frag.count && #[trigger] g.rejected[b] && !start.rejected[b] ==> w.size(b)
            > w.policy.max_block_devices
}

proof fn lemma_pass<S: Scalar>(w: &Walk<S>, start: Growth, count: nat)
    requires
        start.set.len() == w.frag.count,
        start.rejected.len() == w.frag.count,
        count <= w.frag.count,
    ensures
        sound_growth(w, start, w.pass(start, count)),
        w.pass(start, count).pulled >= start.pulled,
        w.pass(start, count).pulled == start.pulled && start.pulled < w.policy.max_growth_blocks
            ==> (forall|b: int|
            0 <= b < count && #[trigger] w.fresh(start, b) ==> w.size(b)
                > w.policy.max_block_devices) && w.pass(start, count).set == start.set,
    decreases count,
{
    if count > 0 {
        lemma_pass(w, start, (count - 1) as nat);
    }
}

proof fn lemma_grown<S: Scalar>(w: &Walk<S>, first: Growth, g: Growth)
    requires
        w.wf(),
        sound_growth(w, first, g),
        first.pulled == 0,
        forall|b: int| 0 <= b < w.frag.count ==> !#[trigger] first.rejected[b],
    ensures
        sound_growth(w, first, w.grown(g)),
        w.grown(g).pulled < w.policy.max_growth_blocks ==> forall|b: int|
            0 <= b < w.frag.count && #[trigger] w.sensed(
                w.grown(g).set,
                b,
                w.graph.sense_edges@.len() as int,
            ) && !w.grown(g).set[b] ==> w.size(b) > w.policy.max_block_devices,
    decreases
            if g.pulled < w.policy.max_growth_blocks {
                w.policy.max_growth_blocks - g.pulled
            } else {
                0
            },
{
    let after = w.pass(g, w.frag.count as nat);
    lemma_pass(w, g, w.frag.count as nat);
    assert(sound_growth(w, first, after)) by {
        assert forall|b: int| 0 <= b < w.frag.count && first.set[b] implies #[trigger] after.set[b] by {
            assert(g.set[b]);
        }
        assert forall|b: int|
            0 <= b < w.frag.count && #[trigger] after.set[b] && !first.set[b] implies w.size(b)
            <= w.policy.max_block_devices by {
            if g.set[b] {
            }
        }
        assert forall|b: int|
            0 <= b < w.frag.count && #[trigger] after.rejected[b]
                && !first.rejected[b] implies w.size(b) > w.policy.max_block_devices by {
            if g.rejected[b] {
            }
        }
    }
    if g.pulled >= w.policy.max_growth_blocks {
    } else if after.pulled <= g.pulled {
        assert forall|b: int|
            0 <= b < w.frag.count && #[trigger] w.sensed(
                after.set,
                b,
                w.graph.sense_edges@.len() as int,
            ) && !after.set[b] implies w.size(b) > w.policy.max_block_devices by {
            if g.rejected[b] {
                assert(!first.rejected[b]);
            } else {
                assert(w.fresh(g, b));
            }
        }
    } else {
        lemma_grown(w, first, after);
    }
}

/// The capture of a candidate holds every block that adjoins it; every further
/// block is small enough; and unless the budget ran out, every block of admissible
/// size that the capture's devices sense is in it.
pub proof fn law_capture_reaches_its_generation<S: Scalar>(w: &Walk<S>, b: int)
    requires
        w.wf(),
        0 <= b < w.frag.count,
    ensures
        w.capture().pulled <= w.policy.max_growth_blocks,
        adjoins(w.sub, w.frag, w.cand, b, w.sub.devices@.len() as int) ==> w.capture().set[b],
        w.capture().set[b] && !adjoins(w.sub, w.frag, w.cand, b, w.sub.devices@.len() as int)
            ==> w.size(b) <= w.policy.max_block_devices,
        w.capture().pulled < w.policy.max_growth_blocks && w.sensed(
            w.capture().set,
            b,
            w.graph.sense_edges@.len() as int,
        ) && w.size(b) <= w.policy.max_block_devices ==> w.capture().set[b],
{
    let first = w.start();
    assert(sound_growth(w, first, first));
    lemma_grown(w, first, first);
}

} // verus!
