//! Waveform relaxation over the clusters of a stiff group, as a machine: it says
//! which capture to solve next, and takes the trains that the capture gave.
//!
//! Within a round each cluster is solved against the latest trains. The first
//! round is seeded with rest values and measures nothing. Of each later round the
//! residual of every member against its previous train is kept; the relaxation
//! has converged when a whole round stays within tolerance, and gives up after
//! six.
use vstd::prelude::*;

use crate::circuit::NodeId;
use crate::orchestrate::capture::outcome::{
    boundary_tolerance, exceeds, is_above, is_met, listed_value, meets, tolerance, value_of,
    StiffOutcome,
};
use crate::orchestrate::capture::plan::StiffPlan;
use crate::orchestrate::capture::BoundaryKind;
use crate::orchestrate::grid::{constant_train, shifted, shifted_residual, shorter, Residual};
use crate::scalar::Scalar;

verus! {

/// Train-driven rounds before the relaxation gives up.
pub const MAX_ROUNDS: usize = 6;

/// What is known after some captures.
pub struct RelaxState<S> {
    /// The latest train of each node.
    pub trains: Seq<Seq<S>>,
    /// The last residual of each node.
    pub sag: Seq<Residual<S>>,
    /// The round under way; the first is round zero.
    pub round: nat,
    /// The cluster to solve next.
    pub next: nat,
    /// Whether every residual of the round has been within tolerance.
    pub converged: bool,
    pub done: bool,
}

/// The residual between two trains.
pub open spec fn residual<S: Scalar>(a: Seq<S>, b: Seq<S>) -> Residual<S> {
    let n = shorter(a.len(), b.len());
    shifted(a, b, n, n)
}

impl<S: Scalar> RelaxState<S> {
    /// After a member's new train.
    pub open spec fn with_member(self, n: NodeId, train: Seq<S>, tol: S) -> RelaxState<S> {
        let d = residual(self.trains[n.0 as int], train);
        RelaxState {
            trains: self.trains.update(n.0 as int, train),
            sag: if self.round == 0 {
                self.sag
            } else {
                self.sag.update(n.0 as int, d)
            },
            converged: self.converged && (self.round == 0 || !exceeds(d, tol)),
            ..self
        }
    }

    /// After the new trains of the first `count` members of a cluster.
    pub open spec fn with_members(
        self,
        nodes: Seq<NodeId>,
        trains: Seq<Seq<S>>,
        rest: Seq<S>,
        reltol: S,
        count: nat,
    ) -> RelaxState<S>
        decreases count,
    {
        if count == 0 {
            self
        } else {
            let n = nodes[count - 1];
            self.with_members(nodes, trains, rest, reltol, (count - 1) as nat).with_member(
                n,
                trains[count - 1],
                tolerance(reltol, listed_value(rest, n)),
            )
        }
    }

    /// After the last cluster of a round, or before the next of it. A single
    /// cluster replays nothing, so its first solve is the answer and nothing sags.
    pub open spec fn advanced(self, clusters: nat, candidates: Seq<NodeId>) -> RelaxState<S> {
        let next = self.next + 1;
        if next < clusters {
            RelaxState { next, ..self }
        } else if self.round == 0 && clusters == 1 {
            RelaxState {
                next,
                sag: unsagged(self.sag, candidates, candidates.len()),
                converged: true,
                done: true,
                ..self
            }
        } else if self.round > 0 && (self.converged || self.round >= MAX_ROUNDS) {
            RelaxState { next, done: true, ..self }
        } else {
            RelaxState { next: 0, round: self.round + 1, converged: true, ..self }
        }
    }

    /// After a cluster's capture.
    pub open spec fn after(
        self,
        plan: &StiffPlan,
        trains: Seq<Seq<S>>,
        rest: Seq<S>,
        reltol: S,
    ) -> RelaxState<S> {
        let nodes = plan.cluster_nodes(self.next as int);
        self.with_members(nodes, trains, rest, reltol, nodes.len()).advanced(
            plan.clusters@.len(),
            plan.candidates@,
        )
    }
}

/// The residuals with none at the first `count` candidates.
pub open spec fn unsagged<S: Scalar>(
    sag: Seq<Residual<S>>,
    candidates: Seq<NodeId>,
    count: nat,
) -> Seq<Residual<S>>
    decreases count,
{
    if count == 0 {
        sag
    } else {
        unsagged(sag, candidates, (count - 1) as nat).update(
            candidates[count - 1].0 as int,
            Residual::Volts(S::spec_zero()),
        )
    }
}

/// What to do next.
#[derive(Clone, Copy, Debug, PartialEq, Eq, Structural)]
pub enum Next {
    /// Solve the capture of a cluster.
    Capture(usize),
    /// Every boundary is within tolerance.
    Accept,
    /// The relaxation did not converge.
    Refuse,
}

/// A relaxation under way.
#[derive(Debug)]
pub struct Relaxation<S> {
    /// The rest value of each node.
    pub rest: Vec<S>,
    pub reltol: S,
    /// Whether rest values came from the per-group bootstrap.
    pub bootstrapped: bool,
    pub trains: Vec<Vec<S>>,
    pub sag: Vec<Residual<S>>,
    pub round: usize,
    pub next: usize,
    pub converged: bool,
    pub done: bool,
}

/// The trains as sequences.
pub open spec fn series<S>(trains: Seq<Vec<S>>) -> Seq<Seq<S>> {
    Seq::new(trains.len(), |i: int| trains[i]@)
}

/// Whether, in a measured round that has stayed within tolerance, every member of
/// the clusters solved so far is within tolerance.
pub open spec fn settled<S: Scalar>(
    st: RelaxState<S>,
    plan: &StiffPlan,
    rest: Seq<S>,
    reltol: S,
) -> bool {
    st.round > 0 && st.converged ==> forall|k: int, m: int|
        #![trigger plan.clusters@[k]@[m]]
        0 <= k < st.next && 0 <= m < plan.clusters@[k]@.len() ==> !exceeds(
            st.sag[plan.node_of(k, m).0 as int],
            tolerance(reltol, listed_value(rest, plan.node_of(k, m))),
        )
}

proof fn lemma_members_keep<S: Scalar>(
    st: RelaxState<S>,
    nodes: Seq<NodeId>,
    trains: Seq<Seq<S>>,
    rest: Seq<S>,
    reltol: S,
    count: nat,
    n: NodeId,
)
    requires
        count <= nodes.len(),
        st.trains.len() == st.sag.len(),
        n.0 < st.sag.len(),
        forall|m: int| 0 <= m < nodes.len() ==> (#[trigger] nodes[m]).0 < st.sag.len(),
    ensures
        ({
            let after = st.with_members(nodes, trains, rest, reltol, count);
            &&& after.round == st.round
            &&& after.next == st.next
            &&& after.done == st.done
            &&& after.trains.len() == st.trains.len()
            &&& after.sag.len() == st.sag.len()
            &&& after.converged ==> st.converged
            &&& st.round > 0 && after.converged ==> {
                ||| !exceeds(after.sag[n.0 as int], tolerance(reltol, listed_value(rest, n)))
                ||| after.sag[n.0 as int] == st.sag[n.0 as int] && forall|m: int|
                    0 <= m < count ==> #[trigger] nodes[m] != n
            }
        }),
    decreases count,
{
    if count > 0 {
        lemma_members_keep(st, nodes, trains, rest, reltol, (count - 1) as nat, n);
        let before = st.with_members(nodes, trains, rest, reltol, (count - 1) as nat);
        let after = st.with_members(nodes, trains, rest, reltol, count);
        let last = nodes[count - 1];
        assert(last.0 < before.sag.len());
        if st.round > 0 && after.converged {
            if last == n {
                assert(!exceeds(after.sag[n.0 as int], tolerance(reltol, listed_value(rest, n))));
            } else {
                assert(last.0 != n.0);
                assert(after.sag[n.0 as int] == before.sag[n.0 as int]);
            }
        }
    }
}

/// A relaxation that is accepted after a measured round has every boundary within
/// its tolerance; this is what each capture keeps.
pub proof fn law_accepted_boundaries_are_within_tolerance<S: Scalar>(
    st: RelaxState<S>,
    plan: &StiffPlan,
    trains: Seq<Seq<S>>,
    rest: Seq<S>,
    reltol: S,
)
    requires
        plan.wf(),
        st.next < plan.clusters@.len(),
        !st.done,
        st.trains.len() == st.sag.len(),
        forall|i: int|
            0 <= i < plan.candidates@.len() ==> (#[trigger] plan.candidates@[i]).0 < st.sag.len(),
        settled(st, plan, rest, reltol),
    ensures
        settled(st.after(plan, trains, rest, reltol), plan, rest, reltol),
        ({
            let after = st.after(plan, trains, rest, reltol);
            after.done && after.converged && after.round > 0 ==> forall|i: int|
                0 <= i < plan.candidates@.len() ==> !exceeds(
                    after.sag[(#[trigger] plan.candidates@[i]).0 as int],
                    tolerance(reltol, listed_value(rest, plan.candidates@[i])),
                )
        }),
{
    let k0 = st.next as int;
    let nodes = plan.cluster_nodes(k0);
    assert forall|m: int| 0 <= m < nodes.len() implies (#[trigger] nodes[m]).0 < st.sag.len() by {
        assert(plan.clusters@[k0]@[m] < plan.candidates@.len());
        assert(nodes[m] == plan.candidates@[plan.clusters@[k0]@[m] as int]);
    }
    assert(plan.clusters@[k0]@.len() > 0);
    assert(nodes.len() > 0);
    let mid = st.with_members(nodes, trains, rest, reltol, nodes.len());
    let after = mid.advanced(plan.clusters@.len(), plan.candidates@);
    lemma_members_keep(st, nodes, trains, rest, reltol, nodes.len(), nodes[0]);
    if mid.round > 0 && mid.converged {
        assert forall|k: int, m: int|
            #![trigger plan.clusters@[k]@[m]]
            0 <= k < k0 + 1 && 0 <= m < plan.clusters@[k]@.len() implies !exceeds(
            mid.sag[plan.node_of(k, m).0 as int],
            tolerance(reltol, listed_value(rest, plan.node_of(k, m))),
        ) by {
            let n = plan.node_of(k, m);
            assert(plan.clusters@[k]@[m] < plan.candidates@.len());
            assert(n == plan.candidates@[plan.clusters@[k]@[m] as int]);
            lemma_members_keep(st, nodes, trains, rest, reltol, nodes.len(), n);
            if k == k0 {
                assert(nodes[m] == n);
            }
        }
    }
    if after.done && after.converged && after.round > 0 {
        assert forall|i: int| 0 <= i < plan.candidates@.len() implies !exceeds(
            after.sag[(#[trigger] plan.candidates@[i]).0 as int],
            tolerance(reltol, listed_value(rest, plan.candidates@[i])),
        ) by {
            assert(plan.clustered(plan.candidates@[i], i));
            let (k, m) = choose|k: int, m: int|
                #![trigger plan.clusters@[k]@[m]]
                0 <= k < plan.clusters@.len() && 0 <= m < plan.clusters@[k]@.len()
                    && plan.clusters@[k]@[m] == i;
            assert(plan.node_of(k, m) == plan.candidates@[i]);
        }
    }
}

impl<S: Scalar> Relaxation<S> {
    pub open spec fn state(&self) -> RelaxState<S> {
        RelaxState {
            trains: series(self.trains@),
            sag: self.sag@,
            round: self.round as nat,
            next: self.next as nat,
            converged: self.converged,
            done: self.done,
        }
    }

    /// Every candidate has a rest value, a train and a residual, and what has been
    /// measured in a converging round is within tolerance.
    pub open spec fn wf(&self, plan: &StiffPlan) -> bool {
        &&& plan.wf()
        &&& self.trains@.len() == self.sag@.len() == self.rest@.len()
        &&& forall|i: int|
            0 <= i < plan.candidates@.len() ==> (#[trigger] plan.candidates@[i]).0
                < self.sag@.len()
        &&& self.round <= MAX_ROUNDS
        &&& !self.done ==> self.next < plan.clusters@.len()
        &&& self.done ==> self.next == plan.clusters@.len()
        &&& settled(self.state(), plan, self.rest@, self.reltol)
    }

    /// Begin with every node held at its rest value.
    pub fn new(
        plan: &StiffPlan,
        rest: Vec<S>,
        reltol: S,
        bootstrapped: bool,
        samples: usize,
    ) -> (r: Self)
        requires
            plan.wf(),
            forall|i: int|
                0 <= i < plan.candidates@.len() ==> (#[trigger] plan.candidates@[i]).0
                    < rest@.len(),
        ensures
            r.wf(plan),
            r.rest@ == rest@,
            r.reltol == reltol,
            r.bootstrapped == bootstrapped,
            r.state() == (RelaxState {
                trains: Seq::new(
                    rest@.len(),
                    |n: int| Seq::new(samples as nat, |k: int| rest@[n]),
                ),
                sag: Seq::new(rest@.len(), |n: int| Residual::Infinite),
                round: 0,
                next: 0,
                converged: true,
                done: false,
            }),
    {
        let mut trains: Vec<Vec<S>> = Vec::new();
        let mut sag: Vec<Residual<S>> = Vec::new();
        let mut n: usize = 0;
        while n < rest.len()
            invariant
                n <= rest@.len(),
                trains@.len() == n,
                sag@ == Seq::new(n as nat, |i: int| Residual::<S>::Infinite),
                forall|i: int|
                    0 <= i < n ==> (#[trigger] trains@[i])@ == Seq::new(
                        samples as nat,
                        |k: int| rest@[i],
                    ),
            decreases rest@.len() - n,
        {
            trains.push(constant_train(rest[n], samples));
            sag.push(Residual::Infinite);
            assert(sag@ =~= Seq::new((n + 1) as nat, |i: int| Residual::<S>::Infinite));
            n = n + 1;
        }
        let r = Relaxation {
            rest,
            reltol,
            bootstrapped,
            trains,
            sag,
            round: 0,
            next: 0,
            converged: true,
            done: false,
        };
        assert(r.state().trains =~= Seq::new(
            rest@.len(),
            |n: int| Seq::new(samples as nat, |k: int| rest@[n]),
        ));
        r
    }

    /// What to do next.
    pub fn next(&self, plan: &StiffPlan) -> (r: Next)
        requires
            self.wf(plan),
        ensures
            r == (if !self.done {
                Next::Capture(self.next)
            } else if self.converged {
                Next::Accept
            } else {
                Next::Refuse
            }),
            r matches Next::Capture(k) ==> k < plan.clusters@.len(),
            r is Accept && self.round > 0 ==> forall|i: int|
                0 <= i < plan.candidates@.len() ==> !exceeds(
                    self.sag@[(#[trigger] plan.candidates@[i]).0 as int],
                    tolerance(self.reltol, listed_value(self.rest@, plan.candidates@[i])),
                ),
    {
        if !self.done {
            Next::Capture(self.next)
        } else if self.converged {
            proof {
                if self.round > 0 {
                    assert forall|i: int| 0 <= i < plan.candidates@.len() implies !exceeds(
                        self.sag@[(#[trigger] plan.candidates@[i]).0 as int],
                        tolerance(self.reltol, listed_value(self.rest@, plan.candidates@[i])),
                    ) by {
                        assert(plan.clustered(plan.candidates@[i], i));
                        let (k, m) = choose|k: int, m: int|
                            #![trigger plan.clusters@[k]@[m]]
                            0 <= k < plan.clusters@.len() && 0 <= m < plan.clusters@[k]@.len()
                                && plan.clusters@[k]@[m] == i;
                        assert(plan.node_of(k, m) == plan.candidates@[i]);
                    }
                }
            }
            Next::Accept
        } else {
            Next::Refuse
        }
    }

    /// Take the trains of the members of the cluster that was solved.
    pub fn absorb(&mut self, plan: &StiffPlan, trains: Vec<Vec<S>>)
        requires
            old(self).wf(plan),
            !old(self).done,
            trains@.len() == plan.clusters@[old(self).next as int]@.len(),
        ensures
            final(self).wf(plan),
            final(self).rest == old(self).rest,
            final(self).reltol == old(self).reltol,
            final(self).bootstrapped == old(self).bootstrapped,
            final(self).state() == old(self).state().after(
                plan,
                series(trains@),
                old(self).rest@,
                old(self).reltol,
            ),
    {
        let ghost st0 = self.state();
        let ghost nodes = plan.cluster_nodes(self.next as int);
        let ghost given = series(trains@);
        proof {
            law_accepted_boundaries_are_within_tolerance(
                st0,
                plan,
                given,
                self.rest@,
                self.reltol,
            );
        }
        let k: usize = self.next;
        let total: usize = plan.clusters[k].len();
        let mut trains: Vec<Vec<S>> = trains;
        let mut m: usize = 0;
        while m < total
            invariant
                m <= total == nodes.len(),
                plan.wf(),
                k < plan.clusters@.len(),
                total == plan.clusters@[k as int]@.len(),
                nodes == plan.cluster_nodes(k as int),
                given.len() == total,
                trains@.len() == total,
                self.next == k,
                self.done == old(self).done,
                self.rest == old(self).rest,
                self.reltol == old(self).reltol,
                self.bootstrapped == old(self).bootstrapped,
                self.round == old(self).round,
                self.trains@.len() == self.sag@.len() == self.rest@.len(),
                forall|i: int|
                    0 <= i < plan.candidates@.len() ==> (#[trigger] plan.candidates@[i]).0
                        < self.sag@.len(),
                forall|i: int| m <= i < total ==> (#[trigger] trains@[i])@ == given[i],
                self.state() == st0.with_members(
                    nodes,
                    given,
                    self.rest@,
                    self.reltol,
                    m as nat,
                ),
            decreases total - m,
        {
            let who: usize = plan.clusters[k][m];
            assert(plan.clusters@[k as int]@[m as int] < plan.candidates@.len());
            let node = plan.candidates[who];
            assert(node == nodes[m as int]);
            assert(plan.candidates@[who as int].0 < self.sag@.len());
            let n: usize = node.0 as usize;
            let ghost before = self.state();
            assert(trains@[m as int]@ == given[m as int]);
            let mut new: Vec<S> = Vec::new();
            std::mem::swap(&mut trains[m], &mut new);
            if self.round > 0 {
                let d = shifted_residual(&self.trains[n], &new);
                assert(self.trains@[n as int]@ == before.trains[n as int]);
                self.sag.set(n, d);
                if is_above(d, boundary_tolerance(self.reltol, value_of(&self.rest, node))) {
                    self.converged = false;
                }
            }
            self.trains.set(n, new);
            assert(self.state().trains =~= before.trains.update(n as int, given[m as int]));
            assert(self.state() == before.with_member(
                node,
                given[m as int],
                tolerance(self.reltol, listed_value(self.rest@, node)),
            ));
            m = m + 1;
        }
        let ghost mid = self.state();
        self.advance(plan);
        assert(self.state() == mid.advanced(plan.clusters@.len(), plan.candidates@));
    }

    fn advance(&mut self, plan: &StiffPlan)
        requires
            plan.wf(),
            old(self).next < plan.clusters@.len(),
            !old(self).done,
            old(self).round <= MAX_ROUNDS,
            forall|i: int|
                0 <= i < plan.candidates@.len() ==> (#[trigger] plan.candidates@[i]).0 < old(
                    self,
                ).sag@.len(),
        ensures
            final(self).rest == old(self).rest,
            final(self).reltol == old(self).reltol,
            final(self).bootstrapped == old(self).bootstrapped,
            final(self).trains == old(self).trains,
            final(self).sag@.len() == old(self).sag@.len(),
            final(self).round <= MAX_ROUNDS,
            !final(self).done ==> final(self).next < plan.clusters@.len(),
            final(self).done ==> final(self).next == plan.clusters@.len(),
            final(self).state() == old(self).state().advanced(
                plan.clusters@.len(),
                plan.candidates@,
            ),
    {
        let total: usize = plan.clusters.len();
        self.next = self.next + 1;
        if self.next < total {
            return;
        }
        if self.round == 0 && plan.clusters.len() == 1 {
            let ghost sag0 = self.sag@;
            let mut i: usize = 0;
            while i < plan.candidates.len()
                invariant
                    i <= plan.candidates@.len(),
                    self.sag@.len() == sag0.len(),
                    self.sag@ == unsagged(sag0, plan.candidates@, i as nat),
                    self.rest == old(self).rest,
                    self.reltol == old(self).reltol,
                    self.bootstrapped == old(self).bootstrapped,
                    self.trains == old(self).trains,
                    self.round == old(self).round,
                    self.next == plan.clusters@.len(),
                    self.next == old(self).next + 1,
                    self.converged == old(self).converged,
                    self.done == old(self).done,
                    forall|i: int|
                        0 <= i < plan.candidates@.len() ==> (#[trigger] plan.candidates@[i]).0
                            < sag0.len(),
                decreases plan.candidates@.len() - i,
            {
                let n: usize = plan.candidates[i].0 as usize;
                self.sag.set(n, Residual::Volts(S::zero()));
                i = i + 1;
            }
            self.converged = true;
            self.done = true;
        } else if self.round > 0 && (self.converged || self.round >= MAX_ROUNDS) {
            self.done = true;
        } else {
            self.round = self.round + 1;
            self.next = 0;
            self.converged = true;
        }
    }

    /// The outcome of every candidate.
    pub fn outcomes(&self, plan: &StiffPlan) -> (r: Vec<StiffOutcome<S>>)
        requires
            self.wf(plan),
        ensures
            r@.len() == plan.candidates@.len(),
            forall|i: int|
                0 <= i < r@.len() ==> judged(
                    #[trigger] r@[i],
                    plan,
                    i,
                    self.sag@,
                    self.rest@,
                    self.reltol,
                    self.bootstrapped,
                ),
    {
        let mut out: Vec<StiffOutcome<S>> = Vec::new();
        let mut i: usize = 0;
        while i < plan.candidates.len()
            invariant
                i <= plan.candidates@.len(),
                self.wf(plan),
                out@.len() == i,
                forall|k: int|
                    0 <= k < i ==> judged(
                        #[trigger] out@[k],
                        plan,
                        k,
                        self.sag@,
                        self.rest@,
                        self.reltol,
                        self.bootstrapped,
                    ),
            decreases plan.candidates@.len() - i,
        {
            let node = plan.candidates[i];
            assert(plan.candidates@[i as int].0 < self.sag@.len());
            let sag = self.sag[node.0 as usize];
            let tol: S = boundary_tolerance(self.reltol, value_of(&self.rest, node));
            let growth: usize = plan.growth[i];
            let joint: bool = is_joint(plan, i);
            out.push(
                StiffOutcome {
                    node,
                    kind: BoundaryKind::Signal,
                    sag_v: sag,
                    tol_v: Some(tol),
                    accepted: is_met(sag, tol),
                    bootstrapped: self.bootstrapped,
                    capture_growth: growth,
                    note: if joint {
                        "merged capture: solved jointly with overlapping candidates (intra-cluster boundary exact, not replayed)"
                    } else if growth > 0 {
                        "generator-inclusive capture (grew beyond plain adjacency)"
                    } else {
                        ""
                    },
                },
            );
            i = i + 1;
        }
        out
    }
}

/// Whether a candidate shares its cluster with another.
pub open spec fn jointly(plan: &StiffPlan, i: int, clusters: int) -> bool {
    exists|k: int|
        0 <= k < clusters && (#[trigger] plan.clusters@[k])@.len() > 1
            && plan.clusters@[k]@.contains(i as usize)
}

fn is_joint(plan: &StiffPlan, i: usize) -> (r: bool)
    ensures
        r == jointly(plan, i as int, plan.clusters@.len() as int),
{
    let mut k: usize = 0;
    while k < plan.clusters.len()
        invariant
            k <= plan.clusters@.len(),
            !jointly(plan, i as int, k as int),
        decreases plan.clusters@.len() - k,
    {
        let members = &plan.clusters[k];
        let mut m: usize = 0;
        let mut hit: bool = false;
        while m < members.len()
            invariant
                m <= members@.len(),
                hit <==> exists|x: int| 0 <= x < m && members@[x] == i,
            decreases members@.len() - m,
        {
            if members[m] == i {
                assert(members@[m as int] == i);
                hit = true;
            }
            m = m + 1;
        }
        if hit && members.len() > 1 {
            assert(plan.clusters@[k as int]@.contains(i));
            return true;
        }
        assert(!(plan.clusters@[k as int]@.len() > 1 && plan.clusters@[k as int]@.contains(i)));
        k = k + 1;
    }
    false
}

/// What a measured candidate says.
pub open spec fn judged<S: Scalar>(
    o: StiffOutcome<S>,
    plan: &StiffPlan,
    i: int,
    sag: Seq<Residual<S>>,
    rest: Seq<S>,
    reltol: S,
    bootstrapped: bool,
) -> bool {
    let node = plan.candidates@[i];
    let s = sag[node.0 as int];
    let tol = tolerance(reltol, listed_value(rest, node));
    o.says(
        node,
        BoundaryKind::Signal,
        s,
        Some(tol),
        meets(s, tol),
        bootstrapped,
        plan.growth@[i],
        if jointly(plan, i, plan.clusters@.len() as int) {
            "merged capture: solved jointly with overlapping candidates (intra-cluster boundary exact, not replayed)"@
        } else if plan.growth@[i] > 0 {
            "generator-inclusive capture (grew beyond plain adjacency)"@
        } else {
            ""@
        },
    )
}

} // verus!
