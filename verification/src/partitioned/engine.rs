//! The partitioned engine: the islands of a circuit and the buffer between them.
//!
//! Solving an island and reducing a linear one to its states are the caller's work;
//! the engine decides which islands are which, what each reads and writes, and what
//! a step does with the results.
use vstd::prelude::*;

use crate::circuit::{lemma_greatest_used, Circuit, DeviceId, NodeId};
use crate::duplicate::copied_list;
use crate::orchestrate::tear::RailTear;
use crate::partition::analyze::{Island, Partition};
use crate::partitioned::decide::{is_reducible, rails_of, reducible, torn_rails};
use crate::partitioned::island::{
    entry_of, is_built, most_unknowns, owned_slots, written_by, NonlinearIsland,
};
use crate::partitioned::lower::{fits, island_nodes, self_contained};
use crate::partitioned::ownership::{
    claimed, is_claim, islands_coupled, law_single_writer, lists, reads_claimed, single_writer,
    verify_single_writer,
};
use crate::partitioned::reactive::{node_v, node_volt};
use crate::partitioned::sources::{apply_sources, fed_rounds, gather, ordered, order_sources};
use crate::partitioned::sources::{pinned_by, seed_rails};
use crate::partitioned::sweep::{
    distinct_nodes, law_sweep_is_order_free, scatter, scattered, worst_change,
};
use crate::scalar::Scalar;
use crate::subcircuit::{interned_all, lemma_ground_listed, lemma_interned_all, node_list};
use crate::system::{zero_vec, zeros, Layout};

verus! {

/// What the reduction of a linear island to its states says about it.
#[derive(Debug)]
pub struct Reduction {
    /// The nodes it reads.
    pub inputs: Vec<NodeId>,
    /// The place of each of the island's nodes among its free ones.
    pub locals: Vec<Option<usize>>,
    /// How many states it has.
    pub states: usize,
}

/// The first entry of a higher rank, from `from` on.
pub open spec fn slot_for(list: Seq<(usize, NodeId)>, rank: usize, from: int) -> int
    decreases list.len() - from,
{
    if from >= list.len() {
        list.len() as int
    } else if list[from].0 > rank {
        from
    } else {
        slot_for(list, rank, from + 1)
    }
}

/// The first `count` nodes that have a rank, by rank; those of equal rank in turn.
pub open spec fn ranked(nodes: Seq<NodeId>, ranks: Seq<Option<usize>>, count: nat) -> Seq<
    (usize, NodeId),
>
    decreases count,
{
    if count == 0 {
        Seq::empty()
    } else {
        let rest = ranked(nodes, ranks, (count - 1) as nat);
        match ranks[count - 1] {
            Some(l) => rest.insert(slot_for(rest, l, 0), (l, nodes[count - 1])),
            None => rest,
        }
    }
}

proof fn lemma_slot(list: Seq<(usize, NodeId)>, rank: usize, from: int)
    requires
        0 <= from <= list.len(),
    ensures
        from <= slot_for(list, rank, from) <= list.len(),
        forall|i: int| from <= i < slot_for(list, rank, from) ==> (#[trigger] list[i]).0 <= rank,
        slot_for(list, rank, from) < list.len() ==> list[slot_for(list, rank, from)].0 > rank,
    decreases list.len() - from,
{
    if from < list.len() && list[from].0 <= rank {
        lemma_slot(list, rank, from + 1);
    }
}

/// The free nodes of an island come in the order of their places.
pub proof fn law_free_nodes_are_ranked(
    nodes: Seq<NodeId>,
    ranks: Seq<Option<usize>>,
    count: nat,
    i: int,
    j: int,
)
    requires
        0 <= i < j < ranked(nodes, ranks, count).len(),
    ensures
        ranked(nodes, ranks, count)[i].0 <= ranked(nodes, ranks, count)[j].0,
    decreases count,
{
    if count > 0 {
        let rest = ranked(nodes, ranks, (count - 1) as nat);
        if let Some(l) = ranks[count - 1] {
            let at = slot_for(rest, l, 0);
            lemma_slot(rest, l, 0);
            if i != at && j != at {
                let a = if i < at { i } else { i - 1 };
                let b = if j < at { j } else { j - 1 };
                law_free_nodes_are_ranked(nodes, ranks, (count - 1) as nat, a, b);
            } else if i == at && at < rest.len() && at < j - 1 {
                law_free_nodes_are_ranked(nodes, ranks, (count - 1) as nat, at, j - 1);
            }
        } else {
            law_free_nodes_are_ranked(nodes, ranks, (count - 1) as nat, i, j);
        }
    }
}

/// The free nodes, by place.
pub open spec fn free_list(nodes: Seq<NodeId>, ranks: Seq<Option<usize>>) -> Seq<NodeId> {
    let all = ranked(nodes, ranks, nodes.len());
    Seq::new(all.len(), |k: int| all[k].1)
}

/// The free nodes of a reduced island, by place.
pub fn collect_free_nodes(nodes: &Vec<NodeId>, ranks: &Vec<Option<usize>>) -> (r: Vec<NodeId>)
    requires
        ranks@.len() == nodes@.len(),
    ensures
        r@ == free_list(nodes@, ranks@),
{
    let mut all: Vec<(usize, NodeId)> = Vec::new();
    let mut k: usize = 0;
    while k < nodes.len()
        invariant
            k <= nodes@.len(),
            ranks@.len() == nodes@.len(),
            all@ == ranked(nodes@, ranks@, k as nat),
        decreases nodes@.len() - k,
    {
        match ranks[k] {
            Some(l) => {
                let mut at: usize = 0;
                while at < all.len() && all[at].0 <= l
                    invariant
                        at <= all@.len(),
                        slot_for(all@, l, 0) == slot_for(all@, l, at as int),
                    decreases all@.len() - at,
                {
                    at = at + 1;
                }
                all.insert(at, (l, nodes[k]));
            },
            None => {},
        }
        k = k + 1;
    }
    let mut out: Vec<NodeId> = Vec::new();
    let mut i: usize = 0;
    while i < all.len()
        invariant
            i <= all@.len(),
            all@ == ranked(nodes@, ranks@, nodes@.len()),
            out@ == free_list(nodes@, ranks@).take(i as int),
        decreases all@.len() - i,
    {
        let ghost free = free_list(nodes@, ranks@);
        out.push(all[i].1);
        assert(free.take(i + 1) =~= free.take(i as int).push(free[i as int]));
        i = i + 1;
    }
    assert(free_list(nodes@, ranks@).take(i as int) =~= free_list(nodes@, ranks@));
    out
}

proof fn lemma_ranked_nodes(nodes: Seq<NodeId>, ranks: Seq<Option<usize>>, count: nat, k: int)
    requires
        count <= nodes.len(),
        0 <= k < ranked(nodes, ranks, count).len(),
    ensures
        nodes.contains(ranked(nodes, ranks, count)[k].1),
    decreases count,
{
    let rest = ranked(nodes, ranks, (count - 1) as nat);
    if let Some(l) = ranks[count - 1] {
        let at = slot_for(rest, l, 0);
        lemma_slot(rest, l, 0);
        if k == at {
            assert(nodes[count - 1] == ranked(nodes, ranks, count)[k].1);
        } else if k < at {
            lemma_ranked_nodes(nodes, ranks, (count - 1) as nat, k);
        } else {
            lemma_ranked_nodes(nodes, ranks, (count - 1) as nat, k - 1);
        }
    } else {
        lemma_ranked_nodes(nodes, ranks, (count - 1) as nat, k);
    }
}

/// A linear island reduced to its states.
#[derive(Debug)]
pub struct LinearPart<S> {
    /// Its position among the islands.
    pub island: usize,
    pub inputs: Vec<NodeId>,
    /// The nodes it writes.
    pub free: Vec<NodeId>,
    pub state: Vec<S>,
    /// The trial voltages of the nodes it writes.
    pub vfree: Vec<S>,
}

/// The nodes, among the first `count` of an island's circuit, that it writes.
pub open spec fn owned_upto(nodes: Seq<NodeId>, edge: Seq<NodeId>, count: nat) -> Seq<NodeId>
    decreases count,
{
    if count == 0 {
        Seq::empty()
    } else {
        let rest = owned_upto(nodes, edge, (count - 1) as nat);
        let n = nodes[count - 1];
        if n.0 == 0 || edge.contains(n) {
            rest
        } else {
            rest.push(n)
        }
    }
}

/// The nodes that an island solved as a block writes.
pub open spec fn owned_nodes<S: Scalar>(circuit: &Circuit<S>, isl: &Island) -> Seq<NodeId> {
    let nodes = island_nodes(circuit, isl);
    owned_upto(nodes, isl.boundary_in@, nodes.len())
}

proof fn lemma_owned_nodes<S: Scalar>(
    l2g: Seq<NodeId>,
    edge: Seq<NodeId>,
    layout: &Layout<S>,
    count: nat,
)
    requires
        count <= l2g.len() <= u32::MAX,
        l2g.len() == layout.named + 1,
        l2g.len() > 0 ==> l2g[0].0 == 0,
    ensures
        owned_slots(l2g, edge, layout, count).len() == owned_upto(l2g, edge, count).len(),
        forall|k: int|
            0 <= k < owned_upto(l2g, edge, count).len() ==> (
            #[trigger] owned_slots(l2g, edge, layout, count)[k]).0 == owned_upto(
                l2g,
                edge,
                count,
            )[k],
    decreases count,
{
    if count > 0 {
        lemma_owned_nodes(l2g, edge, layout, (count - 1) as nat);
        let ln = NodeId((count - 1) as u32);
        if l2g[count - 1].0 != 0 {
            assert(layout.spec_node(ln) is Some);
        }
    }
}

proof fn lemma_owned_upto(nodes: Seq<NodeId>, edge: Seq<NodeId>, count: nat, k: int)
    requires
        count <= nodes.len(),
        0 <= k < owned_upto(nodes, edge, count).len(),
    ensures
        nodes.contains(owned_upto(nodes, edge, count)[k]),
    decreases count,
{
    let n = nodes[count - 1];
    let rest = owned_upto(nodes, edge, (count - 1) as nat);
    if k < rest.len() {
        lemma_owned_upto(nodes, edge, (count - 1) as nat, k);
    }
}

proof fn lemma_interned_bound(l2g: Seq<NodeId>, nodes: Seq<NodeId>, count: nat, top: int)
    requires
        count <= nodes.len(),
        forall|i: int| 0 <= i < l2g.len() ==> (#[trigger] l2g[i]).0 <= top,
        forall|i: int| 0 <= i < nodes.len() ==> (#[trigger] nodes[i]).0 <= top,
    ensures
        forall|i: int|
            0 <= i < interned_all(l2g, nodes, count).len() ==> (
            #[trigger] interned_all(l2g, nodes, count)[i]).0 <= top,
    decreases count,
{
    if count > 0 {
        lemma_interned_bound(l2g, nodes, (count - 1) as nat, top);
        let was = interned_all(l2g, nodes, (count - 1) as nat);
        let now = interned_all(l2g, nodes, count);
        assert(nodes[count - 1].0 <= top);
        assert forall|i: int| 0 <= i < now.len() implies (#[trigger] now[i]).0 <= top by {
            if i < was.len() {
                assert(was[i].0 <= top);
            }
        }
    }
}

proof fn lemma_listed_bound<S: Scalar>(circuit: &Circuit<S>, ids: Seq<DeviceId>, count: nat, top: int)
    requires
        count <= ids.len(),
        0 <= top,
        forall|k: int| 0 <= k < ids.len() ==> (#[trigger] ids[k]).0 < circuit.devices@.len(),
        forall|d: int, i: int|
            #![trigger circuit.devices@[d].spec_nodes()[i]]
            0 <= d < circuit.devices@.len() && 0 <= i < circuit.devices@[d].spec_nodes().len()
                ==> circuit.devices@[d].spec_nodes()[i].0 <= top,
    ensures
        forall|i: int|
            0 <= i < node_list(circuit, ids, count).len() ==> (
            #[trigger] node_list(circuit, ids, count)[i]).0 <= top,
    decreases count,
{
    if count > 0 {
        lemma_listed_bound(circuit, ids, (count - 1) as nat, top);
        let nodes = circuit.devices@[ids[count - 1].0 as int].spec_nodes();
        lemma_interned_bound(node_list(circuit, ids, (count - 1) as nat), nodes, nodes.len(), top);
    }
}

/// The nodes of an island's circuit are nodes of the circuit, ground first.
proof fn lemma_island_nodes<S: Scalar>(circuit: &Circuit<S>, isl: &Island)
    requires
        fits(circuit, isl),
    ensures
        forall|i: int|
            0 <= i < island_nodes(circuit, isl).len() ==> (
            #[trigger] island_nodes(circuit, isl)[i]).0 <= circuit.spec_max_node(),
        island_nodes(circuit, isl).len() > 0,
        island_nodes(circuit, isl)[0] == NodeId(0),
{
    let own = isl.devices@.len();
    let edge = isl.boundary_in@;
    circuit.lemma_names();
    lemma_greatest_used(circuit.devices@, circuit.devices@.len(), circuit.node_names().len() - 1);
    lemma_listed_bound(circuit, isl.devices@, own, circuit.spec_max_node());
    let start = node_list(circuit, isl.devices@, own);
    lemma_interned_bound(start, edge, edge.len(), circuit.spec_max_node());
    lemma_ground_listed(circuit, isl.devices@, own);
    lemma_interned_all(start, edge, edge.len());
}

/// Whether an island is advanced by its reduction.
pub open spec fn reduced(isl: Island, rails: Seq<NodeId>, reduction: Option<Reduction>) -> bool {
    reducible(isl, rails) && reduction is Some
}

/// The positions, among the first `count` islands, of those that are reduced, or of
/// those that are not.
pub open spec fn positions(
    islands: Seq<Island>,
    rails: Seq<NodeId>,
    reductions: Seq<Option<Reduction>>,
    which: bool,
    count: nat,
) -> Seq<int>
    decreases count,
{
    if count == 0 {
        Seq::empty()
    } else {
        let rest = positions(islands, rails, reductions, which, (count - 1) as nat);
        if reduced(islands[count - 1], rails, reductions[count - 1]) == which {
            rest.push(count - 1)
        } else {
            rest
        }
    }
}

/// What a partition is built from.
pub struct Plan<'a, S> {
    pub circuit: &'a Circuit<S>,
    pub islands: Seq<Island>,
    pub rails: Seq<NodeId>,
    pub reductions: Seq<Option<Reduction>>,
}

impl<'a, S: Scalar> Plan<'a, S> {
    pub open spec fn linear_at(&self, count: nat) -> Seq<int> {
        positions(self.islands, self.rails, self.reductions, true, count)
    }

    pub open spec fn blocks_at(&self, count: nat) -> Seq<int> {
        positions(self.islands, self.rails, self.reductions, false, count)
    }

    /// The nodes that the islands write, reduced ones first.
    pub open spec fn writes(&self, count: nat) -> Seq<Seq<NodeId>> {
        let lin = self.linear_at(count);
        let blocks = self.blocks_at(count);
        Seq::new(
            lin.len(),
            |k: int|
                free_list(self.islands[lin[k]].nodes@, (self.reductions[lin[k]]->0).locals@),
        ) + Seq::new(
            blocks.len(),
            |k: int| owned_nodes(self.circuit, &self.islands[blocks[k]]),
        )
    }

    /// The nodes that the islands read, reduced ones first.
    pub open spec fn reads(&self, count: nat) -> Seq<Seq<NodeId>> {
        let lin = self.linear_at(count);
        let blocks = self.blocks_at(count);
        Seq::new(lin.len(), |k: int| (self.reductions[lin[k]]->0).inputs@) + Seq::new(
            blocks.len(),
            |k: int| self.islands[blocks[k]].boundary_in@,
        )
    }

    /// Whether every block can be solved on its own.
    pub open spec fn solvable(&self) -> bool {
        forall|i: int|
            0 <= i < self.islands.len() && !reduced(
                self.islands[i],
                self.rails,
                self.reductions[i],
            ) ==> self_contained(self.circuit, &#[trigger] self.islands[i])
    }

    /// Whether everything the islands refer to is there.
    pub open spec fn wf(&self, n_nodes: nat) -> bool {
        &&& self.circuit.wf()
        &&& n_nodes == self.circuit.spec_max_node()
        &&& n_nodes < usize::MAX
        &&& self.reductions.len() == self.islands.len()
        &&& forall|i: int|
            0 <= i < self.islands.len() ==> fits(self.circuit, &#[trigger] self.islands[i])
                && most_unknowns(self.circuit, &self.islands[i]) <= usize::MAX
        &&& forall|i: int, k: int|
            0 <= i < self.islands.len() && 0 <= k < self.islands[i].nodes@.len() ==> (
            #[trigger] self.islands[i].nodes@[k]).0 <= n_nodes
        &&& forall|i: int|
            0 <= i < self.reductions.len() && self.reductions[i] is Some ==> (
            #[trigger] self.reductions[i]->0).locals@.len() == self.islands[i].nodes@.len()
        &&& forall|i: int, k: int|
            0 <= i < self.reductions.len() && self.reductions[i] is Some && 0 <= k < (
            self.reductions[i]->0).inputs@.len() ==> (#[trigger] (
            self.reductions[i]->0).inputs@[k]).0 <= n_nodes
    }
}

/// Whether some island reads a node that one writes.
pub open spec fn couples(reads: Seq<Seq<NodeId>>, writes: Seq<Seq<NodeId>>) -> bool {
    exists|k: int, i: int|
        0 <= k < reads.len() && 0 <= i < reads[k].len() && claimed(
            writes,
            #[trigger] reads[k][i],
        )
}

/// Whether a linear part is an island's reduction, at rest.
pub open spec fn is_reduced<S: Scalar>(
    part: LinearPart<S>,
    at: int,
    isl: Island,
    reduction: Reduction,
) -> bool {
    &&& part.island == at
    &&& part.inputs@ == reduction.inputs@
    &&& part.free@ == free_list(isl.nodes@, reduction.locals@)
    &&& part.state@ == zeros::<S>(reduction.states as nat)
    &&& part.vfree@ == zeros::<S>(part.free@.len())
}

/// The partitioned engine.
#[derive(Debug)]
pub struct PartitionedTransient<S> {
    pub linear: Vec<LinearPart<S>>,
    pub nonlinear: Vec<NonlinearIsland<S>>,
    /// The cut sources, in the order in which they are applied.
    pub sources: Vec<DeviceId>,
    pub tears: Vec<RailTear<S>>,
    /// The voltage of every node.
    pub vbuf: Vec<S>,
    /// Whether islands feed each other.
    pub coupled: bool,
}

/// The islands of a plan, sorted out.
struct Sorted<S> {
    linear: Vec<LinearPart<S>>,
    nonlinear: Vec<NonlinearIsland<S>>,
    free_sets: Vec<Vec<NodeId>>,
    own_sets: Vec<Vec<NodeId>>,
    free_reads: Vec<Vec<NodeId>>,
    own_reads: Vec<Vec<NodeId>>,
}

impl<S: Scalar> Sorted<S> {
    spec fn of(&self, plan: &Plan<S>, count: nat) -> bool {
        let lin = plan.linear_at(count);
        let blocks = plan.blocks_at(count);
        &&& self.linear@.len() == lin.len()
        &&& self.free_sets@.len() == lin.len()
        &&& self.free_reads@.len() == lin.len()
        &&& self.nonlinear@.len() == blocks.len()
        &&& self.own_sets@.len() == blocks.len()
        &&& self.own_reads@.len() == blocks.len()
        &&& forall|k: int|
            0 <= k < lin.len() ==> is_reduced(
                #[trigger] self.linear@[k],
                lin[k],
                plan.islands[lin[k]],
                plan.reductions[lin[k]]->0,
            )
        &&& forall|k: int|
            0 <= k < lin.len() ==> (#[trigger] self.free_sets@[k])@ == free_list(
                plan.islands[lin[k]].nodes@,
                (plan.reductions[lin[k]]->0).locals@,
            )
        &&& forall|k: int|
            0 <= k < lin.len() ==> (#[trigger] self.free_reads@[k])@ == (
            plan.reductions[lin[k]]->0).inputs@
        &&& forall|k: int|
            0 <= k < blocks.len() ==> is_built(
                plan.circuit,
                &plan.islands[blocks[k]],
                &#[trigger] self.nonlinear@[k],
            )
        &&& forall|k: int|
            0 <= k < blocks.len() ==> (#[trigger] self.own_sets@[k])@ == owned_nodes(
                plan.circuit,
                &plan.islands[blocks[k]],
            )
        &&& forall|k: int|
            0 <= k < blocks.len() ==> (#[trigger] self.own_reads@[k])@
                == plan.islands[blocks[k]].boundary_in@
    }
}

proof fn lemma_positions(
    islands: Seq<Island>,
    rails: Seq<NodeId>,
    reductions: Seq<Option<Reduction>>,
    which: bool,
    count: nat,
)
    ensures
        forall|k: int|
            0 <= k < positions(islands, rails, reductions, which, count).len() ==> {
                let at = #[trigger] positions(islands, rails, reductions, which, count)[k];
                0 <= at < count && reduced(islands[at], rails, reductions[at]) == which
            },
    decreases count,
{
    if count > 0 {
        lemma_positions(islands, rails, reductions, which, (count - 1) as nat);
        let was = positions(islands, rails, reductions, which, (count - 1) as nat);
        let now = positions(islands, rails, reductions, which, count);
        assert forall|k: int| 0 <= k < now.len() implies {
            let at = #[trigger] now[k];
            0 <= at < count && reduced(islands[at], rails, reductions[at]) == which
        } by {
            if k < was.len() {
                assert(now[k] == was[k]);
            }
        }
    }
}

fn owned_list<S: Scalar>(nl: &NonlinearIsland<S>, circuit: &Circuit<S>, isl: &Island) -> (r: Vec<
    NodeId,
>)
    requires
        fits(circuit, isl),
        is_built(circuit, isl, nl),
    ensures
        r@ == owned_nodes(circuit, isl),
{
    let mut out: Vec<NodeId> = Vec::new();
    proof {
        lemma_island_nodes(circuit, isl);
        nl.sub.lemma_names();
        lemma_owned_nodes(nl.l2g@, isl.boundary_in@, &nl.layout, nl.l2g@.len());
    }
    let mut k: usize = 0;
    while k < nl.owned.len()
        invariant
            k <= nl.owned@.len(),
            nl.owned@.len() == owned_nodes(circuit, isl).len(),
            forall|k: int|
                0 <= k < nl.owned@.len() ==> (#[trigger] nl.owned@[k]).0 == owned_nodes(
                    circuit,
                    isl,
                )[k],
            out@ == owned_nodes(circuit, isl).take(k as int),
        decreases nl.owned@.len() - k,
    {
        let ghost all = owned_nodes(circuit, isl);
        out.push(nl.owned[k].0);
        assert(all.take(k + 1) =~= all.take(k as int).push(all[k as int]));
        k = k + 1;
    }
    assert(owned_nodes(circuit, isl).take(k as int) =~= owned_nodes(circuit, isl));
    out
}

fn reduce<S: Scalar>(isl: &Island, at: usize, red: &Reduction) -> (r: LinearPart<S>)
    requires
        red.locals@.len() == isl.nodes@.len(),
    ensures
        is_reduced(r, at as int, *isl, *red),
{
    let free = collect_free_nodes(&isl.nodes, &red.locals);
    let width: usize = free.len();
    LinearPart {
        island: at,
        inputs: copied_list(&red.inputs),
        free,
        state: zero_vec(red.states),
        vfree: zero_vec(width),
    }
}

/// Reduce or lower every island.
fn sort_out<S: Scalar>(
    circuit: &Circuit<S>,
    islands: &Vec<Island>,
    rails: &Vec<NodeId>,
    reductions: &Vec<Option<Reduction>>,
    Ghost(plan): Ghost<Plan<S>>,
    n_nodes: usize,
) -> (r: Option<Sorted<S>>)
    requires
        plan == (Plan {
            circuit,
            islands: islands@,
            rails: rails@,
            reductions: reductions@,
        }),
        plan.wf(n_nodes as nat),
    ensures
        match r {
            Some(r) => plan.solvable() && r.of(&plan, islands@.len()),
            None => !plan.solvable(),
        },
{
    let mut out = Sorted {
        linear: Vec::new(),
        nonlinear: Vec::new(),
        free_sets: Vec::new(),
        own_sets: Vec::new(),
        free_reads: Vec::new(),
        own_reads: Vec::new(),
    };
    let mut i: usize = 0;
    while i < islands.len()
        invariant
            i <= islands@.len(),
            plan == (Plan {
                circuit,
                islands: islands@,
                rails: rails@,
                reductions: reductions@,
            }),
            plan.wf(n_nodes as nat),
            out.of(&plan, i as nat),
            forall|j: int|
                0 <= j < i && !reduced(islands@[j], rails@, reductions@[j]) ==> self_contained(
                    circuit,
                    &#[trigger] islands@[j],
                ),
        decreases islands@.len() - i,
    {
        let isl = &islands[i];
        let ghost before = out;
        assert(fits(plan.circuit, &plan.islands[i as int]));
        let usable: bool = is_reducible(isl, rails) && reductions[i].is_some();
        if usable {
            match &reductions[i] {
                Some(red) => {
                    assert(plan.reductions[i as int] == Some(*red));
                    assert(plan.reductions[i as int]->0 == *red);
                    let part = reduce(isl, i, red);
                    out.free_sets.push(copied_list(&part.free));
                    out.free_reads.push(copied_list(&red.inputs));
                    out.linear.push(part);
                },
                None => {},
            }
        } else {
            match NonlinearIsland::build(circuit, isl) {
                Some(nl) => {
                    out.own_sets.push(owned_list(&nl, circuit, isl));
                    out.own_reads.push(copied_list(&isl.boundary_in));
                    out.nonlinear.push(nl);
                },
                None => {
                    assert(!self_contained(circuit, &plan.islands[i as int]));
                    return None;
                },
            }
        }
        assert(out.of(&plan, (i + 1) as nat));
        i = i + 1;
    }
    Some(out)
}

fn append_lists(a: Vec<Vec<NodeId>>, b: Vec<Vec<NodeId>>) -> (r: Vec<Vec<NodeId>>)
    ensures
        r@ == a@ + b@,
{
    let mut a = a;
    let mut b = b;
    a.append(&mut b);
    a
}

/// Whether a built engine is the plan's.
pub open spec fn is_engine<S: Scalar>(
    plan: &Plan<S>,
    part: &Partition,
    tears: Seq<RailTear<S>>,
    e: &PartitionedTransient<S>,
) -> bool {
    let count = plan.islands.len();
    let lin = plan.linear_at(count);
    let blocks = plan.blocks_at(count);
    &&& e.linear@.len() == lin.len()
    &&& forall|k: int|
        0 <= k < lin.len() ==> is_reduced(
            #[trigger] e.linear@[k],
            lin[k],
            plan.islands[lin[k]],
            plan.reductions[lin[k]]->0,
        )
    &&& e.nonlinear@.len() == blocks.len()
    &&& forall|k: int|
        0 <= k < blocks.len() ==> is_built(
            plan.circuit,
            &plan.islands[blocks[k]],
            &#[trigger] e.nonlinear@[k],
        )
    &&& e.sources@ == ordered(plan.circuit.devices@, part.sources@, Seq::empty())
    &&& e.tears@ == tears
    &&& e.vbuf@ == zeros::<S>((part.n_nodes + 1) as nat)
    &&& e.coupled == couples(plan.reads(count), plan.writes(count))
}

proof fn lemma_writes_within<S: Scalar>(plan: &Plan<S>, n_nodes: nat, k: int, i: int)
    requires
        plan.wf(n_nodes),
        0 <= k < plan.writes(plan.islands.len()).len(),
        0 <= i < plan.writes(plan.islands.len())[k].len(),
    ensures
        plan.writes(plan.islands.len())[k][i].0 <= n_nodes,
{
    let count = plan.islands.len();
    let lin = plan.linear_at(count);
    let blocks = plan.blocks_at(count);
    lemma_positions(plan.islands, plan.rails, plan.reductions, true, count);
    lemma_positions(plan.islands, plan.rails, plan.reductions, false, count);
    let n = plan.writes(count)[k][i];
    if k < lin.len() {
        let at = lin[k];
        let nodes = plan.islands[at].nodes@;
        let ranks = (plan.reductions[at]->0).locals@;
        lemma_ranked_nodes(nodes, ranks, nodes.len(), i);
        let j = choose|j: int| 0 <= j < nodes.len() && nodes[j] == n;
        assert(plan.islands[at].nodes@[j].0 <= n_nodes);
    } else {
        let at = blocks[k - lin.len()];
        assert(fits(plan.circuit, &plan.islands[at]));
        let isl = &plan.islands[at];
        let nodes = island_nodes(plan.circuit, isl);
        lemma_island_nodes(plan.circuit, isl);
        lemma_owned_upto(nodes, isl.boundary_in@, nodes.len(), i);
        let j = choose|j: int| 0 <= j < nodes.len() && nodes[j] == n;
        assert(nodes[j].0 <= n_nodes);
    }
}

proof fn lemma_reads_within<S: Scalar>(plan: &Plan<S>, n_nodes: nat, k: int, i: int)
    requires
        plan.wf(n_nodes),
        0 <= k < plan.reads(plan.islands.len()).len(),
        0 <= i < plan.reads(plan.islands.len())[k].len(),
    ensures
        plan.reads(plan.islands.len())[k][i].0 <= n_nodes,
{
    let count = plan.islands.len();
    let lin = plan.linear_at(count);
    let blocks = plan.blocks_at(count);
    lemma_positions(plan.islands, plan.rails, plan.reductions, true, count);
    lemma_positions(plan.islands, plan.rails, plan.reductions, false, count);
    if k < lin.len() {
        assert((plan.reductions[lin[k]]->0).inputs@[i].0 <= n_nodes);
    } else {
        let at = blocks[k - lin.len()];
        assert(fits(plan.circuit, &plan.islands[at]));
        assert(plan.islands[at].boundary_in@[i].0 <= n_nodes);
    }
}

impl<S: Scalar> PartitionedTransient<S> {
    /// Build the engine of a partition, given the reduction of each island that has
    /// one. There is none where a block reads a device outside itself, or where a
    /// node would have two writers: the circuit then runs undivided.
    pub fn build_from_partition(
        circuit: &Circuit<S>,
        part: &Partition,
        tears: Vec<RailTear<S>>,
        reductions: &Vec<Option<Reduction>>,
    ) -> (r: Option<PartitionedTransient<S>>)
        requires
            (Plan {
                circuit,
                islands: part.islands@,
                rails: rails_of(tears@),
                reductions: reductions@,
            }).wf(part.n_nodes as nat),
            forall|k: int|
                0 <= k < part.sources@.len() ==> (#[trigger] part.sources@[k]).0
                    < circuit.devices@.len(),
            forall|k: int|
                0 <= k < tears@.len() ==> (#[trigger] tears@[k]).rail.0 <= part.n_nodes,
        ensures
            ({
                let plan = Plan {
                    circuit,
                    islands: part.islands@,
                    rails: rails_of(tears@),
                    reductions: reductions@,
                };
                match r {
                    Some(e) => plan.solvable() && single_writer(
                        plan.writes(part.islands@.len()),
                        plan.rails,
                    ) && is_engine(&plan, part, tears@, &e),
                    None => !plan.solvable() || !single_writer(
                        plan.writes(part.islands@.len()),
                        plan.rails,
                    ),
                }
            }),
    {
        let rails = torn_rails(&tears);
        let ghost plan = Plan {
            circuit,
            islands: part.islands@,
            rails: rails_of(tears@),
            reductions: reductions@,
        };
        let ghost count = part.islands@.len();
        let sorted = match sort_out(
            circuit,
            &part.islands,
            &rails,
            reductions,
            Ghost(plan),
            part.n_nodes,
        ) {
            Some(sorted) => sorted,
            None => {
                return None;
            },
        };
        let Sorted { linear, nonlinear, free_sets, own_sets, free_reads, own_reads } = sorted;
        let sets = append_lists(free_sets, own_sets);
        let reads = append_lists(free_reads, own_reads);
        proof {
            assert(lists(sets@) =~= plan.writes(count)) by {
                assert forall|k: int| 0 <= k < sets@.len() implies lists(sets@)[k] =~= plan.writes(
                    count,
                )[k] by {}
            }
            assert(lists(reads@) =~= plan.reads(count)) by {
                assert forall|k: int| 0 <= k < reads@.len() implies lists(reads@)[k] =~= plan.reads(
                    count,
                )[k] by {}
            }
            assert forall|k: int, i: int|
                0 <= k < sets@.len() && 0 <= i < sets@[k]@.len() implies (
            #[trigger] sets@[k]@[i]).0 <= part.n_nodes by {
                assert(lists(sets@)[k][i] == sets@[k]@[i]);
                lemma_writes_within(&plan, part.n_nodes as nat, k, i);
            }
            assert forall|k: int, i: int|
                0 <= k < reads@.len() && 0 <= i < reads@[k]@.len() implies (
            #[trigger] reads@[k]@[i]).0 <= part.n_nodes by {
                assert(lists(reads@)[k][i] == reads@[k]@[i]);
                lemma_reads_within(&plan, part.n_nodes as nat, k, i);
            }
            assert forall|k: int| 0 <= k < rails@.len() implies (#[trigger] rails@[k]).0
                <= part.n_nodes by {
                assert(tears@[k].rail.0 <= part.n_nodes);
            }
        }
        let mask = match verify_single_writer(&sets, &rails, part.n_nodes) {
            Ok(mask) => mask,
            Err(_) => {
                return None;
            },
        };
        let coupled = islands_coupled(&reads, &mask);
        proof {
            let all = plan.reads(count);
            if reads_claimed(all, mask@) {
                let (k, i) = choose|k: int, i: int|
                    0 <= k < all.len() && 0 <= i < all[k].len() && mask@[(
                    #[trigger] all[k][i]).0 as int];
                lemma_reads_within(&plan, part.n_nodes as nat, k, i);
                assert(NodeId(all[k][i].0) == all[k][i]);
                assert(mask@[all[k][i].0 as int] == claimed(plan.writes(count), NodeId(all[k][i].0)));
                assert(claimed(plan.writes(count), all[k][i]));
            }
            if couples(all, plan.writes(count)) {
                let (k, i) = choose|k: int, i: int|
                    0 <= k < all.len() && 0 <= i < all[k].len() && claimed(
                        plan.writes(count),
                        #[trigger] all[k][i],
                    );
                lemma_reads_within(&plan, part.n_nodes as nat, k, i);
                assert(NodeId(all[k][i].0) == all[k][i]);
                assert(mask@[all[k][i].0 as int] == claimed(plan.writes(count), NodeId(all[k][i].0)));
            }
        }
        let sources = order_sources(circuit, &part.sources);
        let vbuf: Vec<S> = zero_vec(part.n_nodes + 1);
        Some(PartitionedTransient { linear, nonlinear, sources, tears, vbuf, coupled })
    }
}

/// The values that the first `count` linear parts write.
pub open spec fn linear_writes<S>(parts: Seq<LinearPart<S>>, count: nat) -> Seq<(NodeId, S)>
    decreases count,
{
    if count == 0 {
        Seq::empty()
    } else {
        let part = parts[count - 1];
        linear_writes(parts, (count - 1) as nat) + Seq::new(
            part.free@.len(),
            |k: int| (part.free@[k], part.vfree@[k]),
        )
    }
}

/// The values that the first `count` blocks write.
pub open spec fn block_writes<S>(blocks: Seq<NonlinearIsland<S>>, count: nat) -> Seq<(NodeId, S)>
    decreases count,
{
    if count == 0 {
        Seq::empty()
    } else {
        let nl = blocks[count - 1];
        block_writes(blocks, (count - 1) as nat) + written_by(nl.owned@, nl.x@)
    }
}

impl<S: Scalar> PartitionedTransient<S> {
    /// Whether the islands fit the buffer.
    pub open spec fn wf(&self) -> bool {
        let slots = self.vbuf@.len();
        &&& slots > 0
        &&& forall|k: int|
            0 <= k < self.linear@.len() ==> {
                let part = #[trigger] self.linear@[k];
                &&& part.vfree@.len() == part.free@.len()
                &&& forall|i: int| 0 <= i < part.free@.len() ==> (#[trigger] part.free@[i]).0 < slots
                &&& forall|i: int|
                    0 <= i < part.inputs@.len() ==> (#[trigger] part.inputs@[i]).0 < slots
            }
        &&& forall|k: int|
            0 <= k < self.nonlinear@.len() ==> (#[trigger] self.nonlinear@[k]).wf()
                && self.nonlinear@[k].reaches(slots)
        &&& forall|k: int|
            0 <= k < self.tears@.len() ==> (#[trigger] self.tears@[k]).rail.0 < slots
                && self.tears@[k].feed.0 < slots
    }

    /// Everything that the islands write, linear parts first.
    pub open spec fn all_writes(&self) -> Seq<(NodeId, S)> {
        linear_writes(self.linear@, self.linear@.len()) + block_writes(
            self.nonlinear@,
            self.nonlinear@.len(),
        )
    }

    /// What a linear part reads from the buffer.
    pub fn linear_inputs(&self, k: usize) -> (r: Vec<S>)
        requires
            self.wf(),
            k < self.linear@.len(),
        ensures
            r@ == Seq::new(
                self.linear@[k as int].inputs@.len(),
                |i: int| self.vbuf@[self.linear@[k as int].inputs@[i].0 as int],
            ),
    {
        let part = &self.linear[k];
        let mut out: Vec<S> = Vec::new();
        let mut i: usize = 0;
        while i < part.inputs.len()
            invariant
                i <= part.inputs@.len(),
                self.wf(),
                k < self.linear@.len(),
                part == &self.linear@[k as int],
                out@ == Seq::new(i as nat, |j: int| self.vbuf@[part.inputs@[j].0 as int]),
            decreases part.inputs@.len() - i,
        {
            assert(part.inputs@[i as int].0 < self.vbuf@.len());
            out.push(self.vbuf[part.inputs[i].0 as usize]);
            assert(out@ =~= Seq::new((i + 1) as nat, |j: int| self.vbuf@[part.inputs@[j].0 as int]));
            i = i + 1;
        }
        out
    }

    /// Apply the cut sources, at the given value of every device.
    pub fn apply_sources(&mut self, circuit: &Circuit<S>, values: &Vec<S>)
        requires
            old(self).wf(),
            values@.len() == circuit.devices@.len(),
            forall|k: int|
                0 <= k < old(self).sources@.len() ==> (#[trigger] old(self).sources@[k]).0
                    < circuit.devices@.len(),
            forall|k: int, i: int|
                0 <= k < circuit.devices@.len() && 0 <= i < circuit.devices@[k].spec_nodes().len()
                    ==> (#[trigger] circuit.devices@[k].spec_nodes()[i]).0 < old(self).vbuf@.len(),
        ensures
            final(self).wf(),
            *final(self) == (PartitionedTransient { vbuf: final(self).vbuf, ..*old(self) }),
            final(self).vbuf@ == pinned_by(
                circuit.devices@,
                old(self).sources@,
                values@,
                old(self).vbuf@,
                old(self).sources@.len(),
            ),
    {
        apply_sources(circuit, &self.sources, values, &mut self.vbuf);
    }

    /// Estimate the boundary where the circuit has no operating point: the cut
    /// sources at the given values, and every torn rail at its feed.
    pub fn estimate_boundary(&mut self, circuit: &Circuit<S>, values: &Vec<S>)
        requires
            old(self).wf(),
            values@.len() == circuit.devices@.len(),
            forall|k: int|
                0 <= k < old(self).sources@.len() ==> (#[trigger] old(self).sources@[k]).0
                    < circuit.devices@.len(),
            forall|k: int, i: int|
                0 <= k < circuit.devices@.len() && 0 <= i < circuit.devices@[k].spec_nodes().len()
                    ==> (#[trigger] circuit.devices@[k].spec_nodes()[i]).0 < old(self).vbuf@.len(),
        ensures
            final(self).wf(),
            *final(self) == (PartitionedTransient { vbuf: final(self).vbuf, ..*old(self) }),
            final(self).vbuf@ == fed_rounds(
                old(self).tears@,
                pinned_by(
                    circuit.devices@,
                    old(self).sources@,
                    values@,
                    zeros::<S>(old(self).vbuf@.len()),
                    old(self).sources@.len(),
                ),
                old(self).tears@.len(),
            ),
    {
        self.vbuf = zero_vec(self.vbuf.len());
        apply_sources(circuit, &self.sources, values, &mut self.vbuf);
        seed_rails(&self.tears, &mut self.vbuf);
    }

    /// Fill the buffer from an operating point of the whole circuit.
    pub fn fill(&mut self, circuit: &Circuit<S>, layout: &Layout<S>, x: &Vec<S>)
        requires
            old(self).wf(),
            circuit.wf(),
            layout.lays_out(circuit),
            x@.len() == layout.size,
            old(self).vbuf@.len() <= u32::MAX,
        ensures
            final(self).wf(),
            *final(self) == (PartitionedTransient { vbuf: final(self).vbuf, ..*old(self) }),
            final(self).vbuf@ == Seq::new(
                old(self).vbuf@.len(),
                |i: int| if i == 0 {
                    old(self).vbuf@[0]
                } else {
                    node_volt(layout, x@, NodeId(i as u32))
                },
            ),
    {
        let ghost start = *self;
        let mut i: usize = 1;
        while i < self.vbuf.len()
            invariant
                1 <= i <= start.vbuf@.len() <= u32::MAX,
                circuit.wf(),
                layout.lays_out(circuit),
                x@.len() == layout.size,
                *self == (PartitionedTransient { vbuf: self.vbuf, ..start }),
                self.vbuf@.len() == start.vbuf@.len(),
                self.vbuf@[0] == start.vbuf@[0],
                forall|j: int|
                    1 <= j < i ==> #[trigger] self.vbuf@[j] == node_volt(
                        layout,
                        x@,
                        NodeId(j as u32),
                    ),
            decreases start.vbuf@.len() - i,
        {
            let v = node_v(circuit, layout, x, NodeId(i as u32));
            self.vbuf[i] = v;
            i = i + 1;
        }
        assert(self.vbuf@ =~= Seq::new(
            start.vbuf@.len(),
            |i: int| if i == 0 {
                start.vbuf@[0]
            } else {
                node_volt(layout, x@, NodeId(i as u32))
            },
        ));
    }

    fn collect_writes(&self) -> (r: Vec<(NodeId, S)>)
        requires
            self.wf(),
        ensures
            r@ == self.all_writes(),
            forall|k: int| 0 <= k < r@.len() ==> (#[trigger] r@[k]).0.0 < self.vbuf@.len(),
    {
        let mut out: Vec<(NodeId, S)> = Vec::new();
        let mut k: usize = 0;
        while k < self.linear.len()
            invariant
                k <= self.linear@.len(),
                self.wf(),
                out@ == linear_writes(self.linear@, k as nat),
                forall|k: int| 0 <= k < out@.len() ==> (#[trigger] out@[k]).0.0 < self.vbuf@.len(),
            decreases self.linear@.len() - k,
        {
            let part = &self.linear[k];
            let ghost before = out@;
            let ghost own = Seq::new(part.free@.len(), |j: int| (part.free@[j], part.vfree@[j]));
            let mut i: usize = 0;
            while i < part.free.len()
                invariant
                    i <= part.free@.len(),
                    k < self.linear@.len(),
                    part == &self.linear@[k as int],
                    self.wf(),
                    own == Seq::new(part.free@.len(), |j: int| (part.free@[j], part.vfree@[j])),
                    out@ == before + own.take(i as int),
                    forall|k: int|
                        0 <= k < out@.len() ==> (#[trigger] out@[k]).0.0 < self.vbuf@.len(),
                decreases part.free@.len() - i,
            {
                assert(part.free@[i as int].0 < self.vbuf@.len());
                out.push((part.free[i], part.vfree[i]));
                assert(own.take(i + 1) =~= own.take(i as int).push(own[i as int]));
                i = i + 1;
            }
            assert(own.take(i as int) =~= own);
            k = k + 1;
        }
        let ghost head = out@;
        let mut j: usize = 0;
        while j < self.nonlinear.len()
            invariant
                j <= self.nonlinear@.len(),
                self.wf(),
                out@ == head + block_writes(self.nonlinear@, j as nat),
                forall|k: int| 0 <= k < out@.len() ==> (#[trigger] out@[k]).0.0 < self.vbuf@.len(),
            decreases self.nonlinear@.len() - j,
        {
            let ghost before = out@;
            let nl = &self.nonlinear[j];
            let mut own = nl.owned_values();
            let ghost added = own@;
            assert forall|i: int| 0 <= i < added.len() implies (#[trigger] added[i]).0.0
                < self.vbuf@.len() by {
                assert(nl.owned@[i].0.0 < self.vbuf@.len());
            }
            out.append(&mut own);
            assert forall|i: int| 0 <= i < out@.len() implies (#[trigger] out@[i]).0.0
                < self.vbuf@.len() by {
                if i >= before.len() {
                    assert(out@[i] == added[i - before.len()]);
                } else {
                    assert(out@[i] == before[i]);
                }
            }
            assert(out@ =~= head + block_writes(self.nonlinear@, (j + 1) as nat));
            j = j + 1;
        }
        out
    }

    /// Make what the islands computed the next generation of the buffer. The largest
    /// weighted change, and its node.
    pub fn finish_sweep(&mut self, reltol: S, vntol: S) -> (r: (S, NodeId))
        requires
            old(self).wf(),
        ensures
            final(self).wf(),
            *final(self) == (PartitionedTransient { vbuf: final(self).vbuf, ..*old(self) }),
            final(self).vbuf@ == scattered(
                old(self).vbuf@,
                old(self).all_writes(),
                old(self).all_writes().len(),
            ),
            r == worst_change(
                old(self).vbuf@,
                old(self).all_writes(),
                reltol,
                vntol,
                old(self).all_writes().len(),
            ),
    {
        let writes = self.collect_writes();
        let sweep = scatter(&self.vbuf, &writes, reltol, vntol);
        proof {
            lemma_scattered_len(self.vbuf@, writes@, writes@.len());
        }
        self.vbuf = sweep.buf;
        (sweep.worst, sweep.node)
    }

    /// The voltages of the nodes in turn, ground left out.
    pub fn sample(&self) -> (r: Vec<S>)
        requires
            self.wf(),
        ensures
            r@ == self.vbuf@.skip(1),
    {
        gather(&self.vbuf)
    }

    /// How many blocks load a rail.
    pub fn loads_on(&self, rail: NodeId) -> (r: usize)
        ensures
            r == loads_among(self.nonlinear@, rail, self.nonlinear@.len()),
    {
        let mut n: usize = 0;
        let mut k: usize = 0;
        while k < self.nonlinear.len()
            invariant
                k <= self.nonlinear@.len(),
                n <= k,
                n == loads_among(self.nonlinear@, rail, k as nat),
            decreases self.nonlinear@.len() - k,
        {
            if self.nonlinear[k].touches_rail(rail) {
                n = n + 1;
            }
            k = k + 1;
        }
        n
    }

    /// The current that the blocks draw out of a rail.
    pub fn drawn_from(&self, rail: NodeId) -> (r: S)
        requires
            self.wf(),
        ensures
            r == drawn_by(self.nonlinear@, rail, self.nonlinear@.len()),
    {
        let mut sum: S = S::zero();
        let mut k: usize = 0;
        while k < self.nonlinear.len()
            invariant
                k <= self.nonlinear@.len(),
                self.wf(),
                sum == drawn_by(self.nonlinear@, rail, k as nat),
            decreases self.nonlinear@.len() - k,
        {
            assert(self.nonlinear@[k as int].wf());
            sum = sum.plus(self.nonlinear[k].rail_current(rail));
            k = k + 1;
        }
        sum
    }
}

/// How many of the first `count` blocks pin a rail.
pub open spec fn loads_among<S>(
    blocks: Seq<NonlinearIsland<S>>,
    rail: NodeId,
    count: nat,
) -> nat
    decreases count,
{
    if count == 0 {
        0
    } else {
        loads_among(blocks, rail, (count - 1) as nat) + if entry_of(
            blocks[count - 1].boundary@,
            rail,
            0,
        ) is Some {
            1nat
        } else {
            0nat
        }
    }
}

/// The current that the first `count` blocks draw out of a rail, added in turn.
pub open spec fn drawn_by<S: Scalar>(
    blocks: Seq<NonlinearIsland<S>>,
    rail: NodeId,
    count: nat,
) -> S
    decreases count,
{
    if count == 0 {
        S::spec_zero()
    } else {
        let nl = blocks[count - 1];
        drawn_by(blocks, rail, (count - 1) as nat).spec_plus(
            nl.spec_rail_current(rail),
        )
    }
}

proof fn lemma_scattered_len<S>(read: Seq<S>, writes: Seq<(NodeId, S)>, count: nat)
    requires
        count <= writes.len(),
        forall|k: int| 0 <= k < writes.len() ==> (#[trigger] writes[k]).0.0 < read.len(),
    ensures
        scattered(read, writes, count).len() == read.len(),
    decreases count,
{
    if count > 0 {
        lemma_scattered_len(read, writes, (count - 1) as nat);
    }
}

/// A built engine fits its buffer.
pub proof fn law_built_engines_fit<S: Scalar>(
    plan: &Plan<S>,
    part: &Partition,
    tears: Seq<RailTear<S>>,
    e: &PartitionedTransient<S>,
)
    requires
        plan.wf(part.n_nodes as nat),
        plan.islands == part.islands@,
        is_engine(plan, part, tears, e),
        forall|k: int|
            0 <= k < tears.len() ==> (#[trigger] tears[k]).rail.0 <= part.n_nodes && tears[k].feed.0
                <= part.n_nodes,
    ensures
        e.wf(),
{
    let count = plan.islands.len();
    let lin = plan.linear_at(count);
    let blocks = plan.blocks_at(count);
    lemma_positions(plan.islands, plan.rails, plan.reductions, true, count);
    lemma_positions(plan.islands, plan.rails, plan.reductions, false, count);
    assert forall|k: int| 0 <= k < e.linear@.len() implies {
        let part = #[trigger] e.linear@[k];
        &&& part.vfree@.len() == part.free@.len()
        &&& forall|i: int| 0 <= i < part.free@.len() ==> (#[trigger] part.free@[i]).0 < e.vbuf@.len()
        &&& forall|i: int| 0 <= i < part.inputs@.len() ==> (#[trigger] part.inputs@[i]).0
            < e.vbuf@.len()
    } by {
        let lp = e.linear@[k];
        assert(is_reduced(
            e.linear@[k],
            lin[k],
            plan.islands[lin[k]],
            plan.reductions[lin[k]]->0,
        ));
        assert forall|i: int| 0 <= i < lp.free@.len() implies (#[trigger] lp.free@[i]).0
            < e.vbuf@.len() by {
            assert(plan.writes(count)[k] == lp.free@);
            lemma_writes_within(plan, part.n_nodes as nat, k, i);
        }
        assert forall|i: int| 0 <= i < lp.inputs@.len() implies (#[trigger] lp.inputs@[i]).0
            < e.vbuf@.len() by {
            assert(plan.reads(count)[k] == lp.inputs@);
            lemma_reads_within(plan, part.n_nodes as nat, k, i);
        }
    }
    assert forall|k: int| 0 <= k < e.nonlinear@.len() implies (#[trigger] e.nonlinear@[k]).wf()
        && e.nonlinear@[k].reaches(e.vbuf@.len()) by {
        let isl = &plan.islands[blocks[k]];
        let nl = e.nonlinear@[k];
        assert(is_built(plan.circuit, isl, &e.nonlinear@[k]));
        assert(fits(plan.circuit, &plan.islands[blocks[k]]));
        lemma_island_nodes(plan.circuit, isl);
        nl.sub.lemma_names();
        lemma_owned_nodes(nl.l2g@, isl.boundary_in@, &nl.layout, nl.l2g@.len());
        assert forall|i: int| 0 <= i < nl.owned@.len() implies (#[trigger] nl.owned@[i]).0.0
            < e.vbuf@.len() by {
            lemma_owned_upto(nl.l2g@, isl.boundary_in@, nl.l2g@.len(), i);
            let n = nl.owned@[i].0;
            let j = choose|j: int| 0 <= j < nl.l2g@.len() && nl.l2g@[j] == n;
            assert(island_nodes(plan.circuit, isl)[j].0 <= part.n_nodes);
        }
        assert forall|i: int| 0 <= i < nl.boundary@.len() implies (#[trigger] nl.boundary@[i]).0.0
            < e.vbuf@.len() by {
            assert(isl.boundary_in@[i].0 <= part.n_nodes);
        }
        assert forall|i: int| 0 <= i < nl.l2g@.len() implies (#[trigger] nl.l2g@[i]).0
            < e.vbuf@.len() by {
            assert(island_nodes(plan.circuit, isl)[i].0 <= part.n_nodes);
        }
    }
}

/// The nodes of a list of writes.
pub open spec fn nodes_of<S>(writes: Seq<(NodeId, S)>) -> Seq<NodeId> {
    Seq::new(writes.len(), |k: int| writes[k].0)
}

/// The nodes that each island of an engine writes, linear parts first.
pub open spec fn writers<S: Scalar>(e: &PartitionedTransient<S>) -> Seq<Seq<NodeId>> {
    Seq::new(e.linear@.len(), |k: int| e.linear@[k].free@) + Seq::new(
        e.nonlinear@.len(),
        |k: int| nodes_of(written_by(e.nonlinear@[k].owned@, e.nonlinear@[k].x@)),
    )
}

/// The first `count` lists, one after the other.
spec fn flat(sets: Seq<Seq<NodeId>>, count: nat) -> Seq<NodeId>
    decreases count,
{
    if count == 0 {
        Seq::empty()
    } else {
        flat(sets, (count - 1) as nat) + sets[count - 1]
    }
}

proof fn lemma_flat_claim(sets: Seq<Seq<NodeId>>, count: nat, k: int) -> (r: (nat, nat))
    requires
        count <= sets.len(),
        0 <= k < flat(sets, count).len(),
    ensures
        r.0 < count,
        is_claim(sets, r.0, r.1),
        sets[r.0 as int][r.1 as int] == flat(sets, count)[k],
    decreases count,
{
    let rest = flat(sets, (count - 1) as nat);
    if k < rest.len() {
        lemma_flat_claim(sets, (count - 1) as nat, k)
    } else {
        ((count - 1) as nat, (k - rest.len()) as nat)
    }
}

proof fn lemma_flat_distinct(sets: Seq<Seq<NodeId>>, outer: Seq<NodeId>, count: nat)
    requires
        single_writer(sets, outer),
        count <= sets.len(),
    ensures
        flat(sets, count).no_duplicates(),
    decreases count,
{
    if count > 0 {
        lemma_flat_distinct(sets, outer, (count - 1) as nat);
        let rest = flat(sets, (count - 1) as nat);
        let all = flat(sets, count);
        let last = (count - 1) as nat;
        assert forall|i: int, j: int| 0 <= i < j < all.len() implies all[i] != all[j] by {
            if j < rest.len() {
                assert(rest[i] != rest[j]);
            } else {
                let jj = (j - rest.len()) as nat;
                assert(is_claim(sets, last, jj));
                if i < rest.len() {
                    let c = lemma_flat_claim(sets, last, i);
                    law_single_writer(sets, outer, c.0, c.1, last, jj);
                } else {
                    let ii = (i - rest.len()) as nat;
                    assert(is_claim(sets, last, ii));
                    law_single_writer(sets, outer, last, ii, last, jj);
                }
            }
        }
        assert(all.no_duplicates()) by {
            assert forall|i: int, j: int| 0 <= i < all.len() && 0 <= j < all.len() && i != j implies all[i]
                != all[j] by {
                if i < j {
                    assert(all[i] != all[j]);
                } else {
                    assert(all[j] != all[i]);
                }
            }
        }
    }
}

proof fn lemma_linear_flat<S: Scalar>(e: &PartitionedTransient<S>, count: nat)
    requires
        count <= e.linear@.len(),
    ensures
        nodes_of(linear_writes(e.linear@, count)) == flat(writers(e), count),
    decreases count,
{
    if count > 0 {
        lemma_linear_flat(e, (count - 1) as nat);
        assert(writers(e)[count - 1] == e.linear@[count - 1].free@);
    }
    assert(nodes_of(linear_writes(e.linear@, count)) =~= flat(writers(e), count));
}

proof fn lemma_block_flat<S: Scalar>(e: &PartitionedTransient<S>, count: nat)
    requires
        count <= e.nonlinear@.len(),
    ensures
        nodes_of(
            linear_writes(e.linear@, e.linear@.len()) + block_writes(e.nonlinear@, count),
        ) == flat(writers(e), e.linear@.len() + count),
    decreases count,
{
    let head = linear_writes(e.linear@, e.linear@.len());
    lemma_linear_flat(e, e.linear@.len());
    if count > 0 {
        lemma_block_flat(e, (count - 1) as nat);
        let nl = e.nonlinear@[count - 1];
        let at = e.linear@.len() + count - 1;
        assert(writers(e)[at] == nodes_of(written_by(nl.owned@, nl.x@)));
        let was = head + block_writes(e.nonlinear@, (count - 1) as nat);
        let now = head + block_writes(e.nonlinear@, count);
        assert(now =~= was + written_by(nl.owned@, nl.x@));
        assert(nodes_of(now) =~= nodes_of(was) + nodes_of(written_by(nl.owned@, nl.x@)));
    } else {
        assert(head + block_writes(e.nonlinear@, 0) =~= head);
    }
}

/// Where every node has one writer, no sweep of the engine writes a node twice, so
/// the order of its islands cannot show.
pub proof fn law_engine_sweeps_are_order_free<S: Scalar>(
    e: &PartitionedTransient<S>,
    rails: Seq<NodeId>,
    delivered: Seq<(NodeId, S)>,
)
    requires
        e.wf(),
        single_writer(writers(e), rails),
        distinct_nodes(delivered),
        forall|k: int| 0 <= k < delivered.len() ==> e.all_writes().contains(#[trigger] delivered[k]),
        forall|k: int|
            0 <= k < e.all_writes().len() ==> delivered.contains(#[trigger] e.all_writes()[k]),
        forall|k: int|
            0 <= k < e.all_writes().len() ==> (#[trigger] e.all_writes()[k]).0.0 < e.vbuf@.len(),
    ensures
        scattered(e.vbuf@, e.all_writes(), e.all_writes().len()) == scattered(
            e.vbuf@,
            delivered,
            delivered.len(),
        ),
{
    let writes = e.all_writes();
    lemma_block_flat(e, e.nonlinear@.len());
    let total = e.linear@.len() + e.nonlinear@.len();
    lemma_flat_distinct(writers(e), rails, total);
    assert(distinct_nodes(writes)) by {
        assert forall|i: int, j: int|
            #![trigger writes[i], writes[j]]
            0 <= i < j < writes.len() implies writes[i].0 != writes[j].0 by {
            assert(nodes_of(writes)[i] == writes[i].0);
            assert(nodes_of(writes)[j] == writes[j].0);
        }
    }
    law_sweep_is_order_free(e.vbuf@, writes, delivered);
}

/// A built engine's islands write what its plan says.
pub proof fn law_built_engines_write_their_plan<S: Scalar>(
    plan: &Plan<S>,
    part: &Partition,
    tears: Seq<RailTear<S>>,
    e: &PartitionedTransient<S>,
)
    requires
        plan.wf(part.n_nodes as nat),
        plan.islands == part.islands@,
        is_engine(plan, part, tears, e),
    ensures
        writers(e) == plan.writes(plan.islands.len()),
{
    let count = plan.islands.len();
    let lin = plan.linear_at(count);
    let blocks = plan.blocks_at(count);
    lemma_positions(plan.islands, plan.rails, plan.reductions, true, count);
    lemma_positions(plan.islands, plan.rails, plan.reductions, false, count);
    let a = writers(e);
    let b = plan.writes(count);
    assert forall|k: int| 0 <= k < a.len() implies a[k] == b[k] by {
        if k < lin.len() {
            assert(is_reduced(
                e.linear@[k],
                lin[k],
                plan.islands[lin[k]],
                plan.reductions[lin[k]]->0,
            ));
        } else {
            let at = k - lin.len();
            let isl = &plan.islands[blocks[at]];
            let nl = e.nonlinear@[at];
            assert(is_built(plan.circuit, isl, &e.nonlinear@[at]));
            assert(fits(plan.circuit, &plan.islands[blocks[at]]));
            lemma_island_nodes(plan.circuit, isl);
            nl.sub.lemma_names();
            lemma_owned_nodes(nl.l2g@, isl.boundary_in@, &nl.layout, nl.l2g@.len());
            assert(a[k] =~= owned_nodes(plan.circuit, isl));
        }
    }
    assert(a =~= b);
}

} // verus!
