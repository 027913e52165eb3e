//! The `.ac` sweep: what it reads, and what it refuses.
use vstd::prelude::*;

use crate::circuit::{Circuit, NodeId};
use crate::error::{ErrorView, SolveError};
use crate::scalar::Scalar;
use crate::sim::resolve::{node_named, resolve_node, texts};
use crate::sim::{label_of, Probe, ProbeView};
use crate::terms::{group_sums, lemma_same_terms, term, Sum};

verus! {

/// What a probe reads from the phasors of a frequency.
#[derive(Clone, Copy, Debug, PartialEq, Eq, Structural)]
pub enum Target {
    Node(NodeId),
    Diff(NodeId, NodeId),
}

/// Why a deck without a stimulus is refused.
pub open spec fn no_stimulus() -> Seq<char> {
    "`.ac` analysis has no AC stimulus: no source carries an `AC <mag> [phase]` spec, so the small-signal drive is identically zero and the response would be a meaningless all-zeros table. Add `AC 1` to the driving source (e.g. `VIN in 0 AC 1`)."@
}

/// Why a current probe is refused.
pub open spec fn no_current(name: Seq<char>) -> Seq<char> {
    "AC output `I("@ + name
        + ")` is not supported: the AC analysis reports node-voltage phasors, not branch currents. Probe a node voltage (e.g. `V(out)`)."@
}

/// What a probe reads.
pub open spec fn target_of(names: Seq<Seq<char>>, p: ProbeView) -> Result<Target, ErrorView> {
    match p {
        ProbeView::NodeVoltage(a) => match node_named(names, a) {
            Ok(n) => Ok(Target::Node(n)),
            Err(e) => Err(e),
        },
        ProbeView::NodeDiff(a, b) => match node_named(names, a) {
            Err(e) => Err(e),
            Ok(n) => match node_named(names, b) {
                Err(e) => Err(e),
                Ok(m) => Ok(Target::Diff(n, m)),
            },
        },
        ProbeView::BranchCurrent(d) => Err(ErrorView::Refused(no_current(d))),
    }
}

/// What the first `count` probes read, or the first probe's error.
pub open spec fn targets_of(names: Seq<Seq<char>>, probes: Seq<Probe>, count: nat) -> Result<
    Seq<Target>,
    ErrorView,
>
    decreases count,
{
    if count == 0 {
        Ok(Seq::empty())
    } else {
        match targets_of(names, probes, (count - 1) as nat) {
            Err(e) => Err(e),
            Ok(ts) => match target_of(names, probes[count - 1]@) {
                Err(e) => Err(e),
                Ok(t) => Ok(ts.push(t)),
            },
        }
    }
}

proof fn lemma_error_stays(names: Seq<Seq<char>>, probes: Seq<Probe>, a: nat, b: nat)
    requires
        a <= b,
        targets_of(names, probes, a) is Err,
    ensures
        targets_of(names, probes, b) == targets_of(names, probes, a),
    decreases b,
{
    if a < b {
        lemma_error_stays(names, probes, a, (b - 1) as nat);
    }
}

/// The columns of a sweep: the frequency, then magnitude and phase of each probe.
pub open spec fn ac_columns(probes: Seq<Probe>, count: nat) -> Seq<Seq<char>>
    decreases count,
{
    if count == 0 {
        seq!["frequency"@]
    } else {
        let label = label_of(probes[count - 1]@);
        ac_columns(probes, (count - 1) as nat).push(label).push(label + ":phase_deg"@)
    }
}

/// What a sweep reads, and its columns.
#[derive(Debug)]
pub struct AcPlan {
    pub targets: Vec<Target>,
    pub columns: Vec<String>,
}

fn find_target<S: Scalar>(circuit: &Circuit<S>, p: &Probe) -> (r: Result<Target, SolveError>)
    requires
        circuit.wf(),
    ensures
        match target_of(circuit.node_names(), p@) {
            Ok(t) => r == Ok::<Target, SolveError>(t),
            Err(e) => r matches Err(f) && f@ == e,
        },
{
    match p {
        Probe::NodeVoltage(a) => match resolve_node(circuit, a.as_str()) {
            Ok(n) => Ok(Target::Node(n)),
            Err(e) => Err(e),
        },
        Probe::NodeDiff(a, b) => {
            let n = match resolve_node(circuit, a.as_str()) {
                Ok(n) => n,
                Err(e) => {
                    return Err(e);
                },
            };
            let m = match resolve_node(circuit, b.as_str()) {
                Ok(m) => m,
                Err(e) => {
                    return Err(e);
                },
            };
            Ok(Target::Diff(n, m))
        },
        Probe::BranchCurrent(d) => {
            let mut text = String::from_str("AC output `I(");
            text.append(d.as_str());
            text.append(
                ")` is not supported: the AC analysis reports node-voltage phasors, not branch currents. Probe a node voltage (e.g. `V(out)`).",
            );
            Err(SolveError::Refused(text))
        },
    }
}

/// What a sweep of a deck reads; `driven` says whether a source carries a stimulus.
/// A deck without one is refused, for its response would be all zeros, and so is a
/// current probe.
pub fn plan_ac<S: Scalar>(circuit: &Circuit<S>, driven: bool, probes: &Vec<Probe>) -> (r: Result<
    AcPlan,
    SolveError,
>)
    requires
        circuit.wf(),
    ensures
        if !driven {
            r matches Err(e) && e@ == ErrorView::Refused(no_stimulus())
        } else {
            match targets_of(circuit.node_names(), probes@, probes@.len()) {
                Err(e) => r matches Err(f) && f@ == e,
                Ok(ts) => r matches Ok(plan) && plan.targets@ == ts && texts(plan.columns@)
                    == ac_columns(probes@, probes@.len()),
            }
        },
{
    if !driven {
        return Err(
            SolveError::Refused(
                String::from_str(
                    "`.ac` analysis has no AC stimulus: no source carries an `AC <mag> [phase]` spec, so the small-signal drive is identically zero and the response would be a meaningless all-zeros table. Add `AC 1` to the driving source (e.g. `VIN in 0 AC 1`).",
                ),
            ),
        );
    }
    let ghost names = circuit.node_names();
    let mut targets: Vec<Target> = Vec::new();
    let mut columns: Vec<String> = Vec::new();
    columns.push(String::from_str("frequency"));
    assert(texts(columns@) =~= seq!["frequency"@]);
    let mut k: usize = 0;
    while k < probes.len()
        invariant
            driven,
            k <= probes@.len(),
            circuit.wf(),
            names == circuit.node_names(),
            targets_of(names, probes@, k as nat) == Ok::<Seq<Target>, ErrorView>(targets@),
            texts(columns@) == ac_columns(probes@, k as nat),
        decreases probes@.len() - k,
    {
        match find_target(circuit, &probes[k]) {
            Ok(t) => {
                targets.push(t);
            },
            Err(e) => {
                proof {
                    lemma_error_stays(names, probes@, (k + 1) as nat, probes@.len());
                }
                return Err(e);
            },
        }
        let ghost before = columns@;
        let label = probes[k].label();
        let mut phase = String::from_str(label.as_str());
        phase.append(":phase_deg");
        columns.push(label);
        columns.push(phase);
        assert(texts(columns@) =~= texts(before).push(label@).push(phase@));
        k = k + 1;
    }
    Ok(AcPlan { targets, columns })
}

/// The phasor of a node: zero for ground and for a node that has none.
pub open spec fn phasor_at<S: Scalar>(phasors: Seq<(S, S)>, n: NodeId) -> (S, S) {
    if n.0 == 0 || n.0 >= phasors.len() {
        (S::spec_zero(), S::spec_zero())
    } else {
        phasors[n.0 as int]
    }
}

/// What a target reads.
pub open spec fn target_phasor<S: Scalar>(phasors: Seq<(S, S)>, t: Target) -> (S, S) {
    match t {
        Target::Node(n) => phasor_at(phasors, n),
        Target::Diff(a, b) => {
            let (ra, ia) = phasor_at(phasors, a);
            let (rb, ib) = phasor_at(phasors, b);
            (ra.spec_minus(rb), ia.spec_minus(ib))
        },
    }
}

fn read_phasor<S: Scalar>(phasors: &Vec<(S, S)>, n: NodeId) -> (r: (S, S))
    ensures
        r == phasor_at(phasors@, n),
{
    if n.is_ground() || n.0 as usize >= phasors.len() {
        (S::zero(), S::zero())
    } else {
        phasors[n.0 as usize]
    }
}

/// What each target reads from the phasors of a frequency, by node number.
pub fn read_targets<S: Scalar>(phasors: &Vec<(S, S)>, targets: &Vec<Target>) -> (r: Vec<(S, S)>)
    ensures
        r@ == Seq::new(targets@.len(), |k: int| target_phasor(phasors@, targets@[k])),
{
    let mut out: Vec<(S, S)> = Vec::new();
    let mut k: usize = 0;
    while k < targets.len()
        invariant
            k <= targets@.len(),
            out@ == Seq::new(k as nat, |j: int| target_phasor(phasors@, targets@[j])),
        decreases targets@.len() - k,
    {
        let v: (S, S) = match targets[k] {
            Target::Node(n) => read_phasor(phasors, n),
            Target::Diff(a, b) => {
                let (ra, ia) = read_phasor(phasors, a);
                let (rb, ib) = read_phasor(phasors, b);
                (ra.minus(rb), ia.minus(ib))
            },
        };
        out.push(v);
        assert(out@ =~= Seq::new((k + 1) as nat, |j: int| target_phasor(phasors@, targets@[j])));
        k = k + 1;
    }
    out
}

/// The difference of two nodes is that of their phasors: against ground it is the node
/// itself, against itself nothing, and the other way round its negative.
pub proof fn law_a_phasor_difference_is_directed<S: Scalar>(
    phasors: Seq<(S, S)>,
    a: NodeId,
    b: NodeId,
)
    requires
        S::exact(),
    ensures
        target_phasor(phasors, Target::Node(NodeId(0))) == (S::spec_zero(), S::spec_zero()),
        target_phasor(phasors, Target::Diff(a, NodeId(0))) == target_phasor(
            phasors,
            Target::Node(a),
        ),
        target_phasor(phasors, Target::Diff(a, b)) == (
            target_phasor(phasors, Target::Diff(b, a)).0.spec_negated(),
            target_phasor(phasors, Target::Diff(b, a)).1.spec_negated(),
        ),
        target_phasor(phasors, Target::Diff(a, b)).0.spec_plus(
            target_phasor(phasors, Target::Node(b)).0,
        ) == target_phasor(phasors, Target::Node(a)).0,
        target_phasor(phasors, Target::Diff(a, b)).1.spec_plus(
            target_phasor(phasors, Target::Node(b)).1,
        ) == target_phasor(phasors, Target::Node(a)).1,
        0 < a.0 < phasors.len() ==> target_phasor(phasors, Target::Node(a))
            == phasors[a.0 as int],
{
    broadcast use group_sums;

    let (ra, ia) = phasor_at(phasors, a);
    let (rb, ib) = phasor_at(phasors, b);
    let s = seq![ra, ia, rb, ib];
    let none = Sum::Nothing;
    lemma_same_terms(term(0).minus(none), term(0), s);
    lemma_same_terms(term(1).minus(none), term(1), s);
    lemma_same_terms(term(0).minus(term(2)), term(2).minus(term(0)).negated(), s);
    lemma_same_terms(term(1).minus(term(3)), term(3).minus(term(1)).negated(), s);
    lemma_same_terms(term(0).minus(term(2)).plus(term(2)), term(0), s);
    lemma_same_terms(term(1).minus(term(3)).plus(term(3)), term(1), s);
}

} // verus!
