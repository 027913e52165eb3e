//! What a staged run certifies of its tears.
use vstd::prelude::*;

use crate::circuit::NodeId;
use crate::ids;
use crate::ids::ascending;
use crate::orchestrate::capture::outcome::StiffOutcome;
use crate::orchestrate::capture::BoundaryKind;
use crate::orchestrate::grid::Residual;
use crate::scalar::Scalar;

verus! {

/// How a boundary was torn.
#[derive(Debug, Clone, Copy, PartialEq, Eq, Structural)]
pub enum TearKind {
    /// Nothing conducts across it: the upstream waveform is replayed.
    Free,
    /// Closed by the scalar balance.
    Balance,
    /// Closed by relaxation, or by holding it.
    Stiff,
}

/// Why a tear is sound.
#[derive(Debug, Clone, Copy)]
pub enum Evidence<S> {
    /// The downstream side only senses the node.
    SenseOnly,
    BalanceEquation,
    MeasuredStiffness { sag_v: Residual<S>, tol_v: Option<S> },
    /// Assumed from the stiffness of the supply; nothing was measured.
    AssumedFeedHold,
}

/// How far a torn answer may be from the undivided one.
#[derive(Debug, Clone, Copy)]
pub enum ToleranceClaim<S> {
    /// Up to interpolation on a grid of this spacing, once it is known.
    CaptureGrid { dt: Option<S> },
    RoundOff,
    Stiffness { sag_v: Residual<S> },
    Unmeasured,
}

/// One tear, and what is claimed of it.
#[derive(Debug, Clone, Copy)]
pub struct TearRecord<S> {
    pub node: NodeId,
    pub kind: TearKind,
    pub evidence: Evidence<S>,
    pub tolerance: ToleranceClaim<S>,
    pub upstream: Option<usize>,
    pub downstream: Option<usize>,
}

/// A question that a torn answer must not be asked.
#[derive(Debug, Clone, Copy, PartialEq, Eq, Structural)]
pub enum RefusedAnalysis {
    /// How a rail holds up under load, where the rail was pinned.
    SupplyIntegrityOnTornRail,
    /// Another question that the decomposition itself refused.
    Other(u32),
}

/// The tears of a decomposition.
#[derive(Debug)]
pub struct TearCertificate<S> {
    pub records: Vec<TearRecord<S>>,
    /// Refused questions, each with the nodes it is refused at.
    pub refusals: Vec<(RefusedAnalysis, Vec<NodeId>)>,
    /// Boundaries that the environment is trusted to drive.
    pub exogenous_boundaries: Vec<NodeId>,
    pub sound: bool,
}

/// The record of a composed boundary, by its kind.
pub open spec fn record_of<S: Scalar>(o: StiffOutcome<S>, node: NodeId) -> TearRecord<S> {
    match o.kind {
        BoundaryKind::BalancedRail => TearRecord {
            node,
            kind: TearKind::Balance,
            evidence: Evidence::BalanceEquation,
            tolerance: ToleranceClaim::RoundOff,
            upstream: None,
            downstream: None,
        },
        BoundaryKind::HeldRail => TearRecord {
            node,
            kind: TearKind::Stiff,
            evidence: Evidence::AssumedFeedHold,
            tolerance: ToleranceClaim::Unmeasured,
            upstream: None,
            downstream: None,
        },
        BoundaryKind::Signal => TearRecord {
            node,
            kind: TearKind::Stiff,
            evidence: Evidence::MeasuredStiffness { sag_v: o.sag_v, tol_v: o.tol_v },
            tolerance: ToleranceClaim::Stiffness { sag_v: o.sag_v },
            upstream: None,
            downstream: None,
        },
    }
}

/// The certificate record of one boundary, by its kind and never by its note: a
/// balanced rail is exact, a held one is an assumption, a signal carries its
/// measured residual.
pub fn composed_tear_record<S: Scalar>(o: &StiffOutcome<S>, node: NodeId) -> (r: TearRecord<S>)
    ensures
        r == record_of(*o, node),
{
    match o.kind {
        BoundaryKind::BalancedRail => TearRecord {
            node,
            kind: TearKind::Balance,
            evidence: Evidence::BalanceEquation,
            tolerance: ToleranceClaim::RoundOff,
            upstream: None,
            downstream: None,
        },
        BoundaryKind::HeldRail => TearRecord {
            node,
            kind: TearKind::Stiff,
            evidence: Evidence::AssumedFeedHold,
            tolerance: ToleranceClaim::Unmeasured,
            upstream: None,
            downstream: None,
        },
        BoundaryKind::Signal => TearRecord {
            node,
            kind: TearKind::Stiff,
            evidence: Evidence::MeasuredStiffness { sag_v: o.sag_v, tol_v: o.tol_v },
            tolerance: ToleranceClaim::Stiffness { sag_v: o.sag_v },
            upstream: None,
            downstream: None,
        },
    }
}

/// Outcomes under the board's node numbers.
pub fn to_board<S: Scalar>(outcomes: &Vec<StiffOutcome<S>>, l2g: &Vec<NodeId>) -> (r: Vec<
    StiffOutcome<S>,
>)
    requires
        forall|i: int|
            0 <= i < outcomes@.len() ==> (#[trigger] outcomes@[i]).node.0 < l2g@.len(),
    ensures
        r@.len() == outcomes@.len(),
        forall|i: int|
            0 <= i < r@.len() ==> #[trigger] r@[i] == (StiffOutcome {
                node: l2g@[outcomes@[i].node.0 as int],
                ..outcomes@[i]
            }),
{
    let mut out: Vec<StiffOutcome<S>> = Vec::new();
    let mut i: usize = 0;
    while i < outcomes.len()
        invariant
            i <= outcomes@.len(),
            forall|i: int|
                0 <= i < outcomes@.len() ==> (#[trigger] outcomes@[i]).node.0 < l2g@.len(),
            out@.len() == i,
            forall|k: int|
                0 <= k < i ==> #[trigger] out@[k] == (StiffOutcome {
                    node: l2g@[outcomes@[k].node.0 as int],
                    ..outcomes@[k]
                }),
        decreases outcomes@.len() - i,
    {
        let o = outcomes[i];
        out.push(StiffOutcome { node: l2g[o.node.0 as usize], ..o });
        i = i + 1;
    }
    out
}

/// The record of every outcome, and its node.
pub fn record_outcomes<S: Scalar>(outcomes: &Vec<StiffOutcome<S>>) -> (r: (
    Vec<TearRecord<S>>,
    Vec<NodeId>,
))
    ensures
        r.0@.len() == outcomes@.len(),
        forall|i: int|
            0 <= i < r.0@.len() ==> #[trigger] r.0@[i] == record_of(
                outcomes@[i],
                outcomes@[i].node,
            ),
        r.1@ == Seq::new(outcomes@.len(), |i: int| outcomes@[i].node),
{
    let mut records: Vec<TearRecord<S>> = Vec::new();
    let mut nodes: Vec<NodeId> = Vec::new();
    let mut i: usize = 0;
    while i < outcomes.len()
        invariant
            i <= outcomes@.len(),
            records@.len() == i,
            nodes@.len() == i,
            forall|k: int|
                0 <= k < i ==> #[trigger] records@[k] == record_of(
                    outcomes@[k],
                    outcomes@[k].node,
                ),
            forall|k: int| 0 <= k < i ==> #[trigger] nodes@[k] == outcomes@[k].node,
        decreases outcomes@.len() - i,
    {
        records.push(composed_tear_record(&outcomes[i], outcomes[i].node));
        nodes.push(outcomes[i].node);
        i = i + 1;
    }
    assert(nodes@ =~= Seq::new(outcomes@.len(), |i: int| outcomes@[i].node));
    (records, nodes)
}

/// Two boundaries of one kind and one measurement are recorded alike, whatever
/// their notes say; and only a balanced rail is recorded as a balance.
pub proof fn law_records_follow_the_kind<S: Scalar>(
    a: StiffOutcome<S>,
    b: StiffOutcome<S>,
    node: NodeId,
)
    requires
        a.kind == b.kind,
        a.sag_v == b.sag_v,
        a.tol_v == b.tol_v,
    ensures
        record_of(a, node) == record_of(b, node),
        record_of(a, node).kind == TearKind::Balance <==> a.kind == BoundaryKind::BalancedRail,
        record_of(a, node).tolerance is RoundOff <==> a.kind == BoundaryKind::BalancedRail,
        a.kind == BoundaryKind::HeldRail ==> record_of(a, node).tolerance is Unmeasured,
{
}

/// A record once the grid it was replayed on is known.
pub open spec fn on_grid<S>(r: TearRecord<S>, dt: S) -> TearRecord<S> {
    if r.kind == TearKind::Free && r.tolerance is CaptureGrid {
        TearRecord { tolerance: ToleranceClaim::CaptureGrid { dt: Some(dt) }, ..r }
    } else {
        r
    }
}

/// Whether a list has every node of either of two, ascending.
pub open spec fn is_union(list: Seq<NodeId>, a: Seq<NodeId>, b: Seq<NodeId>) -> bool {
    &&& ascending(list)
    &&& forall|n: NodeId| #[trigger] list.contains(n) <==> a.contains(n) || b.contains(n)
}

/// The first refusal of supply questions at `from` or after it.
pub open spec fn supply_refusal(
    refusals: Seq<(RefusedAnalysis, Vec<NodeId>)>,
    from: int,
) -> Option<int>
    decreases refusals.len() - from,
{
    if from >= refusals.len() {
        None
    } else if refusals[from].0 == RefusedAnalysis::SupplyIntegrityOnTornRail {
        Some(from)
    } else {
        supply_refusal(refusals, from + 1)
    }
}

/// Whether the refusals are the old ones with supply questions refused at more
/// nodes too.
pub open spec fn refusals_extended(
    before: Seq<(RefusedAnalysis, Vec<NodeId>)>,
    nodes: Seq<NodeId>,
    after: Seq<(RefusedAnalysis, Vec<NodeId>)>,
) -> bool {
    if nodes.len() == 0 {
        after == before
    } else {
        match supply_refusal(before, 0) {
            Some(k) => {
                &&& after.len() == before.len()
                &&& forall|i: int|
                    0 <= i < before.len() && i != k ==> #[trigger] after[i] == before[i]
                &&& after[k].0 == RefusedAnalysis::SupplyIntegrityOnTornRail
                &&& is_union(after[k].1@, before[k].1@, nodes)
            },
            None => {
                &&& after.len() == before.len() + 1
                &&& after.drop_last() == before
                &&& after.last().0 == RefusedAnalysis::SupplyIntegrityOnTornRail
                &&& is_union(after.last().1@, Seq::empty(), nodes)
            },
        }
    }
}

fn add_nodes(list: &mut Vec<NodeId>, more: &Vec<NodeId>)
    requires
        ascending(old(list)@),
    ensures
        is_union(final(list)@, old(list)@, more@),
{
    let ghost start = list@;
    let mut i: usize = 0;
    while i < more.len()
        invariant
            i <= more@.len(),
            is_union(list@, start, more@.take(i as int)),
        decreases more@.len() - i,
    {
        let ghost before = list@;
        let ghost part = more@.take(i as int);
        ids::insert(list, more[i]);
        proof {
            let n0 = more@[i as int];
            let next = more@.take(i + 1);
            assert(next =~= part.push(n0));
            assert forall|n: NodeId| #[trigger] list@.contains(n) <==> start.contains(n)
                || next.contains(n) by {
                assert(list@.contains(n) <==> before.contains(n) || n == n0);
                if part.contains(n) {
                    let k = choose|k: int| 0 <= k < part.len() && part[k] == n;
                    assert(next[k] == n);
                }
                if n == n0 {
                    assert(next[i as int] == n);
                }
                if next.contains(n) {
                    let k = choose|k: int| 0 <= k < next.len() && next[k] == n;
                    if k < i {
                        assert(part[k] == n);
                    }
                }
            }
        }
        i = i + 1;
    }
    assert(more@.take(i as int) =~= more@);
}

/// Put a list in ascending order, each node once.
fn sorted(list: &Vec<NodeId>) -> (r: Vec<NodeId>)
    ensures
        is_union(r@, Seq::empty(), list@),
{
    let mut out: Vec<NodeId> = Vec::new();
    add_nodes(&mut out, list);
    out
}

impl<S: Scalar> TearCertificate<S> {
    /// Complete a certificate after a run: every replayed tear gets the grid it was
    /// replayed on, every measured boundary its record, and supply questions are
    /// refused at every node that was pinned.
    pub fn complete(&mut self, dt: S, measured: &Vec<TearRecord<S>>, pinned: &Vec<NodeId>)
        ensures
            final(self).exogenous_boundaries == old(self).exogenous_boundaries,
            final(self).sound == old(self).sound,
            final(self).records@ == old(self).records@.map_values(
                |r: TearRecord<S>| on_grid(r, dt),
            ) + measured@,
            refusals_extended(old(self).refusals@, pinned@, final(self).refusals@),
    {
        let ghost start = self.records@;
        let ghost dated = start.map_values(|r: TearRecord<S>| on_grid(r, dt));
        let total: usize = self.records.len();
        let mut i: usize = 0;
        while i < total
            invariant
                i <= total == start.len(),
                self.records@.len() == total,
                self.refusals == old(self).refusals,
                self.exogenous_boundaries == old(self).exogenous_boundaries,
                self.sound == old(self).sound,
                forall|k: int| 0 <= k < i ==> #[trigger] self.records@[k] == on_grid(start[k], dt),
                forall|k: int| i <= k < total ==> #[trigger] self.records@[k] == start[k],
            decreases total - i,
        {
            let mut rec = self.records[i];
            assert(self.records@[i as int] == start[i as int]);
            let pending: bool = match rec.tolerance {
                ToleranceClaim::CaptureGrid { .. } => true,
                _ => false,
            };
            if rec.kind == TearKind::Free && pending {
                rec.tolerance = ToleranceClaim::CaptureGrid { dt: Some(dt) };
                self.records.set(i, rec);
            }
            i = i + 1;
        }
        assert(self.records@ =~= dated);
        let mut k: usize = 0;
        while k < measured.len()
            invariant
                k <= measured@.len(),
                self.refusals == old(self).refusals,
                self.exogenous_boundaries == old(self).exogenous_boundaries,
                self.sound == old(self).sound,
                self.records@ == dated + measured@.take(k as int),
            decreases measured@.len() - k,
        {
            self.records.push(measured[k]);
            assert(measured@.take(k + 1) =~= measured@.take(k as int).push(measured@[k as int]));
            k = k + 1;
        }
        assert(measured@.take(k as int) =~= measured@);
        self.refuse_supply(pinned);
    }

    fn refuse_supply(&mut self, pinned: &Vec<NodeId>)
        ensures
            final(self).exogenous_boundaries == old(self).exogenous_boundaries,
            final(self).sound == old(self).sound,
            final(self).records == old(self).records,
            refusals_extended(old(self).refusals@, pinned@, final(self).refusals@),
    {
        if pinned.len() == 0 {
            return;
        }
        let ghost before = self.refusals@;
        let mut i: usize = 0;
        while i < self.refusals.len()
            invariant
                i <= self.refusals@.len(),
                pinned@.len() > 0,
                before == self.refusals@,
                self.refusals == old(self).refusals,
                self.records == old(self).records,
                self.exogenous_boundaries == old(self).exogenous_boundaries,
                self.sound == old(self).sound,
                supply_refusal(before, 0) == supply_refusal(before, i as int),
            decreases self.refusals@.len() - i,
        {
            if self.refusals[i].0 == RefusedAnalysis::SupplyIntegrityOnTornRail {
                let mut nodes = sorted(&self.refusals[i].1);
                let ghost had = before[i as int].1@;
                let ghost base = nodes@;
                add_nodes(&mut nodes, pinned);
                proof {
                    assert forall|n: NodeId| #[trigger] nodes@.contains(n) <==> had.contains(n)
                        || pinned@.contains(n) by {
                        assert(nodes@.contains(n) <==> base.contains(n) || pinned@.contains(n));
                        assert(base.contains(n) <==> Seq::<NodeId>::empty().contains(n)
                            || had.contains(n));
                    }
                }
                self.refusals.set(i, (RefusedAnalysis::SupplyIntegrityOnTornRail, nodes));
                assert(supply_refusal(before, 0) == Some(i as int));
                return;
            }
            i = i + 1;
        }
        let nodes = sorted(pinned);
        self.refusals.push((RefusedAnalysis::SupplyIntegrityOnTornRail, nodes));
        assert(self.refusals@.drop_last() =~= before);
    }
}

/// A completed certificate leaves no replayed tear without its grid.
pub proof fn law_no_claim_is_left_pending<S: Scalar>(r: TearRecord<S>, dt: S)
    ensures
        on_grid(r, dt).kind == TearKind::Free && on_grid(r, dt).tolerance is CaptureGrid
            ==> on_grid(r, dt).tolerance == (ToleranceClaim::CaptureGrid { dt: Some(dt) }),
{
}

} // verus!
