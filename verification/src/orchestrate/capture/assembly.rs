//! The group's waveforms, read from the captures that solved them.
use std::collections::HashMap;

use vstd::prelude::*;

use crate::circuit::{Circuit, NodeId};
use crate::orchestrate::capture::blocks::{block_size, block_sizes, Fragmentation};
use crate::orchestrate::capture::plan::StiffPlan;
use crate::orchestrate::grid::{constant_train, resample, resampled, Waveforms};
use crate::scalar::Scalar;
use crate::subcircuit::SubCircuit;
use crate::system::Layout;

verus! {

broadcast use vstd::std_specs::hash::group_hash_axioms;

/// One capture's waveforms, and its local node for each node of the group.
#[derive(Debug)]
pub struct CaptureRun<S> {
    pub waveforms: Waveforms<S>,
    pub g2l: HashMap<u32, u32>,
}

impl<S: Scalar> CaptureRun<S> {
    pub open spec fn wf(&self) -> bool {
        &&& self.waveforms.wf()
        &&& forall|n: u32| #[trigger]
            self.g2l@.dom().contains(n) ==> self.g2l@[n] < self.waveforms.node_voltages@.len()
    }

    /// A node of the group on a grid; zero where the capture does not hold it.
    pub open spec fn sampled(&self, n: NodeId, grid: Seq<S>) -> Seq<S> {
        if self.g2l@.dom().contains(n.0) {
            resampled(
                self.waveforms.time@,
                self.waveforms.node_voltages@[self.g2l@[n.0] as int]@,
                grid,
            )
        } else {
            Seq::new(grid.len(), |k: int| S::spec_zero())
        }
    }
}

/// A node of the group on a grid.
pub fn sample_node<S: Scalar>(run: &CaptureRun<S>, node: NodeId, grid: &Vec<S>) -> (r: Vec<S>)
    requires
        run.wf(),
    ensures
        r@ == run.sampled(node, grid@),
{
    match run.g2l.get(&node.0) {
        Some(ln) => {
            assert(run.g2l@.dom().contains(node.0));
            resample(&run.waveforms, *ln as usize, grid)
        },
        None => constant_train(S::zero(), grid.len()),
    }
}

/// The first of the clusters `from..` that captured a block.
pub open spec fn owner(blocks: Seq<Vec<bool>>, b: int, from: int) -> Option<int>
    decreases blocks.len() - from,
{
    if from >= blocks.len() {
        None
    } else if blocks[from]@[b] {
        Some(from)
    } else {
        owner(blocks, b, from + 1)
    }
}

fn owner_of(blocks: &Vec<Vec<bool>>, b: usize, count: usize) -> (r: Option<usize>)
    requires
        forall|k: int| 0 <= k < blocks@.len() ==> (#[trigger] blocks@[k])@.len() == count,
        b < count,
    ensures
        match owner(blocks@, b as int, 0) {
            Some(k) => r matches Some(x) && x == k && x < blocks@.len(),
            None => r is None,
        },
{
    let mut k: usize = 0;
    while k < blocks.len()
        invariant
            k <= blocks@.len(),
            forall|k: int| 0 <= k < blocks@.len() ==> (#[trigger] blocks@[k])@.len() == count,
            b < count,
            owner(blocks@, b as int, 0) == owner(blocks@, b as int, k as int),
        decreases blocks@.len() - k,
    {
        assert(blocks@[k as int]@.len() == count);
        if blocks[k][b] {
            return Some(k);
        }
        k = k + 1;
    }
    None
}

/// The position of a held node among `from..`.
pub open spec fn held_at<S>(held: Seq<(NodeId, Vec<S>)>, n: NodeId, from: int) -> Option<int>
    decreases held.len() - from,
{
    if from >= held.len() {
        None
    } else if held[from].0 == n {
        Some(from)
    } else {
        held_at(held, n, from + 1)
    }
}

fn held_position<S: Scalar>(held: &Vec<(NodeId, Vec<S>)>, n: NodeId) -> (r: Option<usize>)
    ensures
        match held_at(held@, n, 0) {
            Some(k) => r matches Some(x) && x == k && x < held@.len(),
            None => r is None,
        },
{
    let mut k: usize = 0;
    while k < held.len()
        invariant
            k <= held@.len(),
            held_at(held@, n, 0) == held_at(held@, n, k as int),
        decreases held@.len() - k,
    {
        if held[k].0 == n {
            return Some(k);
        }
        k = k + 1;
    }
    None
}

/// What a finished relaxation is read from.
pub struct Readout<'a, S> {
    pub plan: &'a StiffPlan,
    pub frag: &'a Fragmentation,
    /// Which nodes are boundaries.
    pub bound: &'a Vec<bool>,
    /// The nodes held at a train of their own.
    pub held: &'a Vec<(NodeId, Vec<S>)>,
    /// The final train of each node.
    pub trains: &'a Vec<Vec<S>>,
    /// The last run of each cluster.
    pub runs: &'a Vec<CaptureRun<S>>,
    pub grid: &'a Vec<S>,
}

impl<'a, S: Scalar> Readout<'a, S> {
    pub open spec fn wf(&self, nodes: nat) -> bool {
        &&& self.plan.wf()
        &&& self.runs@.len() == self.plan.clusters@.len()
        &&& forall|k: int| 0 <= k < self.runs@.len() ==> (#[trigger] self.runs@[k]).wf()
        &&& forall|k: int|
            0 <= k < self.plan.blocks@.len() ==> (#[trigger] self.plan.blocks@[k])@.len()
                == self.frag.count
        &&& self.bound@.len() >= nodes
        &&& self.trains@.len() >= nodes
        &&& forall|n: int|
            0 <= n < self.frag.node_block@.len() ==> match #[trigger] self.frag.node_block@[n] {
                Some(b) => b < self.frag.count,
                None => true,
            }
    }

    /// The series of a node: a held node's own train; a candidate's final train; a
    /// captured block's node from the first cluster that captured the block; any
    /// other node from the first cluster. A block that no cluster captured reads
    /// zero.
    pub open spec fn series_of(&self, n: NodeId) -> Seq<S> {
        match held_at(self.held@, n, 0) {
            Some(h) => self.held@[h].1@,
            None => if self.bound@[n.0 as int] {
                self.trains@[n.0 as int]@
            } else {
                match self.frag.block_of(n) {
                    Some(b) => match owner(self.plan.blocks@, b as int, 0) {
                        Some(k) => self.runs@[k].sampled(n, self.grid@),
                        None => Seq::new(self.grid@.len(), |k: int| S::spec_zero()),
                    },
                    None => self.runs@[0].sampled(n, self.grid@),
                }
            },
        }
    }

    fn read(&self, n: NodeId, nodes: usize) -> (r: Vec<S>)
        requires
            self.wf(nodes as nat),
            n.0 < nodes,
        ensures
            r@ == self.series_of(n),
    {
        match held_position(self.held, n) {
            Some(h) => {
                return crate::duplicate::copied_list(&self.held[h].1);
            },
            None => {},
        }
        if self.bound[n.0 as usize] {
            return crate::duplicate::copied_list(&self.trains[n.0 as usize]);
        }
        let own: Option<usize> = if (n.0 as usize) < self.frag.node_block.len() {
            self.frag.node_block[n.0 as usize]
        } else {
            None
        };
        assert(own == self.frag.block_of(n));
        match own {
            Some(b) => match owner_of(&self.plan.blocks, b, self.frag.count) {
                Some(k) => sample_node(&self.runs[k], n, self.grid),
                None => constant_train(S::zero(), self.grid.len()),
            },
            None => sample_node(&self.runs[0], n, self.grid),
        }
    }
}

/// Whether some block with devices was captured by no cluster.
pub open spec fn unread_block(frag: &Fragmentation, plan: &StiffPlan, count: int) -> bool {
    exists|b: int|
        0 <= b < count && #[trigger] block_size(
            frag.device_block@,
            b,
            frag.device_block@.len(),
        ) > 0 && owner(plan.blocks@, b, 0) is None
}

/// The group's waveforms, or nothing where a block could not be read. With held
/// nodes a block may adjoin held nodes alone, and is left at zero.
pub fn assemble_group<S: Scalar>(
    sub: &Circuit<S>,
    read: &Readout<S>,
) -> (r: Option<Waveforms<S>>)
    requires
        sub.wf(),
        read.frag.wf(sub),
        read.wf(sub.node_names().len()),
    ensures
        match r {
            Some(wf) => {
                &&& read.held@.len() > 0 || !unread_block(
                    read.frag,
                    read.plan,
                    read.frag.count as int,
                )
                &&& wf.time@ == read.grid@
                &&& wf.node_voltages@.len() == sub.node_names().len()
                &&& wf.node_voltages@[0]@ == Seq::new(read.grid@.len(), |k: int| S::spec_zero())
                &&& forall|n: int|
                    1 <= n < wf.node_voltages@.len() ==> (#[trigger] wf.node_voltages@[n])@
                        == read.series_of(NodeId(n as u32))
            },
            None => read.held@.len() == 0 && unread_block(
                read.frag,
                read.plan,
                read.frag.count as int,
            ),
        },
{
    if read.held.len() == 0 {
        let sizes = block_sizes(sub, read.frag);
        let mut b: usize = 0;
        while b < read.frag.count
            invariant
                b <= read.frag.count,
                read.held@.len() == 0,
                read.frag.wf(sub),
                read.wf(sub.node_names().len()),
                sizes@.len() == read.frag.count,
                forall|b: int|
                    0 <= b < read.frag.count ==> #[trigger] sizes@[b] == block_size(
                        read.frag.device_block@,
                        b,
                        read.frag.device_block@.len(),
                    ),
                !unread_block(read.frag, read.plan, b as int),
            decreases read.frag.count - b,
        {
            let known: bool = match owner_of(&read.plan.blocks, b, read.frag.count) {
                Some(_) => true,
                None => false,
            };
            assert(sizes@[b as int] == block_size(
                read.frag.device_block@,
                b as int,
                read.frag.device_block@.len(),
            ));
            if sizes[b] > 0 && !known {
                assert(block_size(
                    read.frag.device_block@,
                    b as int,
                    read.frag.device_block@.len(),
                ) > 0 && owner(read.plan.blocks@, b as int, 0) is None);
                return None;
            }
            b = b + 1;
        }
    }
    let nodes: usize = sub.node_count();
    let mut voltages: Vec<Vec<S>> = Vec::new();
    voltages.push(constant_train(S::zero(), read.grid.len()));
    let mut n: usize = 1;
    while n < nodes
        invariant
            1 <= n <= nodes == sub.node_names().len(),
            sub.wf(),
            read.wf(nodes as nat),
            voltages@.len() == n,
            voltages@[0]@ == Seq::new(read.grid@.len(), |k: int| S::spec_zero()),
            forall|k: int|
                1 <= k < n ==> (#[trigger] voltages@[k])@ == read.series_of(NodeId(k as u32)),
        decreases nodes - n,
    {
        voltages.push(read.read(NodeId(n as u32), nodes));
        n = n + 1;
    }
    Some(Waveforms { time: crate::duplicate::copied_list(read.grid), node_voltages: voltages })
}

/// The unknowns seeded from the first `count` local nodes of a capture with the
/// second sample of its previous run.
pub open spec fn seeded<S: Scalar>(
    x: Seq<S>,
    l2g: Seq<NodeId>,
    layout: &Layout<S>,
    last: &CaptureRun<S>,
    count: nat,
) -> Seq<S>
    decreases count,
{
    if count == 0 {
        x
    } else {
        let before = seeded(x, l2g, layout, last, (count - 1) as nat);
        let n = l2g[count - 1];
        match layout.spec_node(NodeId((count - 1) as u32)) {
            Some(i) => if last.g2l@.dom().contains(n.0) {
                before.update(
                    i as int,
                    last.waveforms.node_voltages@[last.g2l@[n.0] as int]@[1],
                )
            } else {
                before
            },
            None => before,
        }
    }
}

/// A start for a capture's operating point: the state one step into its previous
/// run, which an honest step has already corrected. None where that run has no
/// such sample.
pub fn dc_seed<S: Scalar>(
    sub: &Circuit<S>,
    cap: &SubCircuit<S>,
    layout: &Layout<S>,
    last: &CaptureRun<S>,
) -> (r: Option<Vec<S>>)
    requires
        cap.wf(sub),
        layout.lays_out(&cap.circuit),
        last.wf(),
    ensures
        match r {
            Some(x) => last.waveforms.time@.len() >= 2 && x@ == seeded(
                Seq::new(layout.size as nat, |i: int| S::spec_zero()),
                cap.l2g@,
                layout,
                last,
                cap.l2g@.len(),
            ),
            None => last.waveforms.time@.len() < 2,
        },
{
    if last.waveforms.time.len() < 2 {
        return None;
    }
    let mut x: Vec<S> = constant_train(S::zero(), layout.size);
    let ghost zero = Seq::new(layout.size as nat, |i: int| S::spec_zero());
    assert(x@ == zero);
    let mut k: usize = 0;
    while k < cap.l2g.len()
        invariant
            k <= cap.l2g@.len(),
            cap.wf(sub),
            layout.lays_out(&cap.circuit),
            last.wf(),
            last.waveforms.time@.len() >= 2,
            x@.len() == layout.size,
            x@ == seeded(zero, cap.l2g@, layout, last, k as nat),
        decreases cap.l2g@.len() - k,
    {
        let n = cap.l2g[k];
        let local = NodeId(k as u32);
        proof {
            crate::stamp::context::lemma_node_range(&cap.circuit, layout, local);
        }
        match layout.node(local) {
            Some(i) => match last.g2l.get(&n.0) {
                Some(ln) => {
                    let p: usize = *ln as usize;
                    assert(last.g2l@.dom().contains(n.0));
                    assert(last.waveforms.node_voltages@[p as int]@.len()
                        == last.waveforms.time@.len());
                    x.set(i, last.waveforms.node_voltages[p][1]);
                },
                None => {},
            },
            None => {},
        }
        k = k + 1;
    }
    Some(x)
}

/// A block is owned by the first capture that holds it, and by none only where none does.
pub proof fn law_a_block_is_read_from_its_first_capture(
    blocks: Seq<Vec<bool>>,
    b: int,
    from: int,
)
    requires
        0 <= from <= blocks.len(),
    ensures
        match owner(blocks, b, from) {
            Some(k) => from <= k < blocks.len() && blocks[k]@[b] && forall|j: int|
                from <= j < k ==> !(#[trigger] blocks[j])@[b],
            None => forall|j: int| from <= j < blocks.len() ==> !(#[trigger] blocks[j])@[b],
        },
    decreases blocks.len() - from,
{
    if from < blocks.len() {
        law_a_block_is_read_from_its_first_capture(blocks, b, from + 1);
    }
}

/// A node is held by the first entry that names it, and by none only where none does.
pub proof fn law_a_held_node_is_the_first_named<S>(
    held: Seq<(NodeId, Vec<S>)>,
    n: NodeId,
    from: int,
)
    requires
        0 <= from <= held.len(),
    ensures
        match held_at(held, n, from) {
            Some(k) => from <= k < held.len() && held[k].0 == n && forall|j: int|
                from <= j < k ==> (#[trigger] held[j]).0 != n,
            None => forall|j: int| from <= j < held.len() ==> (#[trigger] held[j]).0 != n,
        },
    decreases held.len() - from,
{
    if from < held.len() {
        law_a_held_node_is_the_first_named(held, n, from + 1);
    }
}

} // verus!
