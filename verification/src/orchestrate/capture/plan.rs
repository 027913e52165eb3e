//! What a stiff group's relaxation captures, and with what.
use vstd::prelude::*;

use crate::circuit::{Circuit, NodeId};
use crate::orchestrate::capture::blocks::{
    adjacent_blocks, adjoins, none_set, ConductionGraph, Fragmentation, Walk,
};
use crate::orchestrate::capture::cluster::{
    cluster, cluster_blocks, cluster_holds, cluster_labels, cluster_members, is_clustering, leaders,
    led_by_least, lemma_all, over_blocks, rows,
};
use crate::orchestrate::capture::CapturePolicy;
use crate::scalar::Scalar;

verus! {

/// The captures of a stiff group.
#[derive(Debug)]
pub struct StiffPlan {
    /// The cut nodes, in the order of their choice.
    pub candidates: Vec<NodeId>,
    /// How many blocks each candidate's capture pulled beyond plain adjacency.
    pub growth: Vec<usize>,
    /// The candidates solved jointly, by their positions; the earliest is first.
    pub clusters: Vec<Vec<usize>>,
    /// The blocks of each cluster's capture.
    pub blocks: Vec<Vec<bool>>,
}

impl StiffPlan {
    /// Every position refers to a candidate, every cluster has one, and every
    /// candidate is in a cluster.
    pub open spec fn wf(&self) -> bool {
        &&& self.candidates@.len() > 0
        &&& self.growth@.len() == self.candidates@.len()
        &&& self.clusters@.len() > 0
        &&& self.blocks@.len() == self.clusters@.len()
        &&& forall|k: int|
            0 <= k < self.clusters@.len() ==> (#[trigger] self.clusters@[k])@.len() > 0
        &&& forall|k: int, m: int|
            #![trigger self.clusters@[k]@[m]]
            0 <= k < self.clusters@.len() && 0 <= m < self.clusters@[k]@.len()
                ==> self.clusters@[k]@[m] < self.candidates@.len()
        &&& forall|i: int|
            0 <= i < self.candidates@.len() ==> self.clustered(#[trigger] self.candidates@[i], i)
    }

    /// Whether the candidate at a position is in a cluster.
    pub open spec fn clustered(&self, c: NodeId, i: int) -> bool {
        exists|k: int, m: int|
            #![trigger self.clusters@[k]@[m]]
            0 <= k < self.clusters@.len() && 0 <= m < self.clusters@[k]@.len()
                && self.clusters@[k]@[m] == i
    }

    /// The node of a cluster's member.
    pub open spec fn node_of(&self, k: int, m: int) -> NodeId {
        self.candidates@[self.clusters@[k]@[m] as int]
    }

    /// The nodes of a cluster.
    pub open spec fn cluster_nodes(&self, k: int) -> Seq<NodeId> {
        Seq::new(self.clusters@[k]@.len(), |m: int| self.node_of(k, m))
    }
}

/// The walk of a candidate.
pub open spec fn walk_of<'a, S: Scalar>(
    sub: &'a Circuit<S>,
    graph: &'a ConductionGraph,
    frag: &'a Fragmentation,
    policy: CapturePolicy,
    cand: NodeId,
) -> Walk<'a, S> {
    Walk { sub, graph, frag, cand, policy }
}

/// The captured blocks of every candidate.
pub open spec fn captures<S: Scalar>(
    sub: &Circuit<S>,
    graph: &ConductionGraph,
    frag: &Fragmentation,
    policy: CapturePolicy,
    candidates: Seq<NodeId>,
) -> Seq<Seq<bool>> {
    Seq::new(
        candidates.len(),
        |i: int| walk_of(sub, graph, frag, policy, candidates[i]).capture().set,
    )
}

/// The blocks that adjoin every candidate.
pub open spec fn adjacency<S: Scalar>(
    sub: &Circuit<S>,
    frag: &Fragmentation,
    candidates: Seq<NodeId>,
) -> Seq<Seq<bool>> {
    Seq::new(
        candidates.len(),
        |i: int|
            Seq::new(
                frag.count as nat,
                |b: int| adjoins(sub, frag, candidates[i], b, sub.devices@.len() as int),
            ),
    )
}

/// Whether a plan is the plan of these candidates.
pub open spec fn is_plan<S: Scalar>(
    sub: &Circuit<S>,
    graph: &ConductionGraph,
    frag: &Fragmentation,
    policy: CapturePolicy,
    candidates: Seq<NodeId>,
    plan: &StiffPlan,
) -> bool {
    let sets = captures(sub, graph, frag, policy, candidates);
    let labels = cluster_labels(sets, adjacency(sub, frag, candidates), frag.count as int);
    &&& plan.candidates@ == candidates
    &&& plan.growth@.len() == candidates.len()
    &&& forall|i: int|
        0 <= i < candidates.len() ==> #[trigger] plan.growth@[i] == walk_of(
            sub,
            graph,
            frag,
            policy,
            candidates[i],
        ).capture().pulled
    &&& is_clustering(labels, plan.clusters@)
    &&& plan.blocks@.len() == plan.clusters@.len()
    &&& forall|k: int|
        0 <= k < plan.blocks@.len() ==> (#[trigger] plan.blocks@[k])@ == Seq::new(
            frag.count as nat,
            |b: int|
                cluster_holds(
                    sets,
                    plan.clusters@[k]@,
                    b,
                    plan.clusters@[k]@.len() as int,
                ),
        )
}

/// Whether a node adjoins no block.
pub open spec fn isolated<S: Scalar>(sub: &Circuit<S>, frag: &Fragmentation, n: NodeId) -> bool {
    forall|b: int|
        0 <= b < frag.count ==> !#[trigger] adjoins(sub, frag, n, b, sub.devices@.len() as int)
}

/// Whether one of the first `count` candidates adjoins no block.
pub open spec fn stranded<S: Scalar>(
    sub: &Circuit<S>,
    frag: &Fragmentation,
    candidates: Seq<NodeId>,
    count: int,
) -> bool {
    exists|i: int| 0 <= i < count && #[trigger] isolated(sub, frag, candidates[i])
}

pub proof fn lemma_members(labels: Seq<int>, leader: int, count: nat, i: int)
    requires
        count <= labels.len() <= usize::MAX,
    ensures
        forall|m: int|
            0 <= m < cluster_members(labels, leader, count).len() ==> (#[trigger] cluster_members(
                labels,
                leader,
                count,
            )[m]) < count && labels[cluster_members(labels, leader, count)[m] as int] == leader,
        0 <= i < count && labels[i] == leader ==> exists|m: int|
            0 <= m < cluster_members(labels, leader, count).len() && (#[trigger] cluster_members(
                labels,
                leader,
                count,
            )[m]) == i,
    decreases count,
{
    if count > 0 {
        lemma_members(labels, leader, (count - 1) as nat, i);
        let rest = cluster_members(labels, leader, (count - 1) as nat);
        let all = cluster_members(labels, leader, count);
        if 0 <= i < count && labels[i] == leader {
            if i == count - 1 {
                assert(all[all.len() - 1] == i);
            } else {
                let m = choose|m: int| 0 <= m < rest.len() && (#[trigger] rest[m]) == i;
                assert(all[m] == i);
            }
        }
    }
}

pub proof fn lemma_leaders(labels: Seq<int>, count: nat, i: int)
    requires
        count <= labels.len(),
        led_by_least(labels),
    ensures
        forall|k: int|
            0 <= k < leaders(labels, count).len() ==> 0 <= (#[trigger] leaders(labels, count)[k])
                < count && labels[leaders(labels, count)[k]] == leaders(labels, count)[k],
        0 <= i < count && labels[i] == i ==> exists|k: int|
            0 <= k < leaders(labels, count).len() && (#[trigger] leaders(labels, count)[k]) == i,
    decreases count,
{
    if count > 0 {
        lemma_leaders(labels, (count - 1) as nat, i);
        let rest = leaders(labels, (count - 1) as nat);
        let all = leaders(labels, count);
        if 0 <= i < count && labels[i] == i {
            if i == count - 1 {
                assert(all[all.len() - 1] == i);
            } else {
                let k = choose|k: int| 0 <= k < rest.len() && (#[trigger] rest[k]) == i;
                assert(all[k] == i);
            }
        }
    }
}

proof fn lemma_plan_wf(labels: Seq<int>, plan: &StiffPlan)
    requires
        led_by_least(labels),
        labels.len() == plan.candidates@.len(),
        0 < labels.len() <= usize::MAX,
        is_clustering(labels, plan.clusters@),
        plan.growth@.len() == plan.candidates@.len(),
        plan.blocks@.len() == plan.clusters@.len(),
    ensures
        plan.wf(),
{
    let n = labels.len();
    let lead = leaders(labels, n);
    assert forall|k: int| 0 <= k < plan.clusters@.len() implies (
    #[trigger] plan.clusters@[k])@.len() > 0 by {
        lemma_leaders(labels, n, 0);
        lemma_members(labels, lead[k], n, lead[k]);
        assert(labels[lead[k]] == lead[k]);
    }
    assert forall|k: int, m: int|
        #![trigger plan.clusters@[k]@[m]]
        0 <= k < plan.clusters@.len() && 0 <= m
            < plan.clusters@[k]@.len() implies plan.clusters@[k]@[m] < plan.candidates@.len() by {
        lemma_members(labels, lead[k], n, 0);
        assert(plan.clusters@[k]@ == cluster_members(labels, lead[k], n));
    }
    assert forall|i: int| 0 <= i < plan.candidates@.len() implies plan.clustered(
        #[trigger] plan.candidates@[i],
        i,
    ) by {
        let l = labels[i];
        assert(0 <= l <= i && labels[l] == l);
        lemma_leaders(labels, n, l);
        let k = choose|k: int| 0 <= k < lead.len() && (#[trigger] lead[k]) == l;
        lemma_members(labels, l, n, i);
        let list = cluster_members(labels, l, n);
        let m = choose|m: int| 0 <= m < list.len() && (#[trigger] list[m]) == i;
        assert(plan.clusters@[k]@ == list);
        assert(plan.clusters@[k]@[m] == i);
    }
    assert(plan.clustered(plan.candidates@[0], 0));
}

/// Plan the captures of a stiff group, or say why there is nothing to capture
/// against.
pub fn plan_capture<S: Scalar>(
    sub: &Circuit<S>,
    graph: &ConductionGraph,
    frag: &Fragmentation,
    candidates: &Vec<NodeId>,
    policy: CapturePolicy,
) -> (r: Result<StiffPlan, &'static str>)
    requires
        sub.wf(),
        graph.wf(sub),
        frag.wf(sub),
        candidates@.len() > 0,
    ensures
        match r {
            Ok(plan) => {
                &&& !stranded(sub, frag, candidates@, candidates@.len() as int)
                &&& is_plan(sub, graph, frag, policy, candidates@, &plan)
                &&& plan.wf()
            },
            Err(note) => {
                &&& stranded(sub, frag, candidates@, candidates@.len() as int)
                &&& note@ == "a candidate with no adjacent block to capture against"@
            },
        },
{
    let n: usize = candidates.len();
    let mut plain: Vec<Vec<bool>> = Vec::new();
    let mut i: usize = 0;
    while i < n
        invariant
            i <= n == candidates@.len(),
            frag.wf(sub),
            plain@.len() == i,
            over_blocks(plain@, frag.count as nat),
            forall|j: int|
                0 <= j < i ==> (#[trigger] plain@[j])@ == Seq::new(
                    frag.count as nat,
                    |b: int| adjoins(sub, frag, candidates@[j], b, sub.devices@.len() as int),
                ),
            !stranded(sub, frag, candidates@, i as int),
        decreases n - i,
    {
        let own = adjacent_blocks(sub, frag, candidates[i]);
        if none_set(&own) {
            proof {
                let c = candidates@[i as int];
                assert(isolated(sub, frag, c)) by {
                    assert forall|b: int| 0 <= b < frag.count implies !#[trigger] adjoins(
                        sub,
                        frag,
                        c,
                        b,
                        sub.devices@.len() as int,
                    ) by {
                        assert(own@[b] == adjoins(sub, frag, c, b, sub.devices@.len() as int));
                    }
                }
            }
            return Err("a candidate with no adjacent block to capture against");
        }
        proof {
            let c = candidates@[i as int];
            let b = choose|b: int| 0 <= b < own@.len() && #[trigger] own@[b];
            assert(adjoins(sub, frag, c, b, sub.devices@.len() as int));
            assert(own@ =~= Seq::new(
                frag.count as nat,
                |b: int| adjoins(sub, frag, c, b, sub.devices@.len() as int),
            ));
            assert(!isolated(sub, frag, c));
        }
        plain.push(own);
        i = i + 1;
    }
    let mut sets: Vec<Vec<bool>> = Vec::new();
    let mut growth: Vec<usize> = Vec::new();
    let ghost all = captures(sub, graph, frag, policy, candidates@);
    let mut j: usize = 0;
    while j < n
        invariant
            j <= n == candidates@.len(),
            sub.wf(),
            graph.wf(sub),
            frag.wf(sub),
            sets@.len() == j,
            growth@.len() == j,
            over_blocks(sets@, frag.count as nat),
            all == captures(sub, graph, frag, policy, candidates@),
            forall|k: int| 0 <= k < j ==> (#[trigger] sets@[k])@ == all[k],
            forall|k: int|
                0 <= k < j ==> #[trigger] growth@[k] == walk_of(
                    sub,
                    graph,
                    frag,
                    policy,
                    candidates@[k],
                ).capture().pulled,
        decreases n - j,
    {
        let walk = Walk { sub, graph, frag, cand: candidates[j], policy };
        assert(walk == walk_of(sub, graph, frag, policy, candidates@[j as int]));
        let (set, pulled) = walk.grow();
        sets.push(set);
        growth.push(pulled);
        j = j + 1;
    }
    assert(rows(sets@) =~= all);
    assert(rows(plain@) =~= adjacency(sub, frag, candidates@)) by {
        let want = adjacency(sub, frag, candidates@);
        assert forall|k: int| 0 <= k < n implies #[trigger] rows(plain@)[k] == want[k] by {
            assert(plain@[k]@ =~= want[k]);
        }
    }
    let clusters = cluster(&sets, &plain, frag.count);
    let ghost labels = cluster_labels(all, adjacency(sub, frag, candidates@), frag.count as int);
    proof {
        lemma_all(all, adjacency(sub, frag, candidates@), frag.count as int, n as nat, n as nat);
    }
    let mut blocks: Vec<Vec<bool>> = Vec::new();
    let mut k: usize = 0;
    while k < clusters.len()
        invariant
            k <= clusters@.len(),
            over_blocks(sets@, frag.count as nat),
            rows(sets@) == all,
            sets@.len() == n,
            labels.len() == n,
            led_by_least(labels),
            is_clustering(labels, clusters@),
            blocks@.len() == k,
            forall|x: int|
                0 <= x < k ==> (#[trigger] blocks@[x])@ == Seq::new(
                    frag.count as nat,
                    |b: int| cluster_holds(all, clusters@[x]@, b, clusters@[x]@.len() as int),
                ),
        decreases clusters@.len() - k,
    {
        proof {
            let lead = leaders(labels, labels.len());
            lemma_members(labels, lead[k as int], labels.len(), 0);
            assert(clusters@[k as int]@ == cluster_members(labels, lead[k as int], labels.len()));
        }
        let own = cluster_blocks(&sets, &clusters[k], frag.count);
        assert(own@ =~= Seq::new(
            frag.count as nat,
            |b: int|
                cluster_holds(all, clusters@[k as int]@, b, clusters@[k as int]@.len() as int),
        ));
        blocks.push(own);
        k = k + 1;
    }
    let plan = StiffPlan {
        candidates: crate::duplicate::copied_list(candidates),
        growth,
        clusters,
        blocks,
    };
    proof {
        lemma_plan_wf(labels, &plan);
    }
    Ok(plan)
}

} // verus!
