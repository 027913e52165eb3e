//! What each boundary may claim, and why a refusal was made.
use vstd::prelude::*;

use crate::circuit::NodeId;
use crate::orchestrate::capture::BoundaryKind;
use crate::orchestrate::grid::Residual;
use crate::scalar::{ordered, Scalar};
use crate::stamp::context::{at_least, raise};

verus! {

/// What happened at one stiff boundary.
#[derive(Debug, Clone, Copy)]
pub struct StiffOutcome<S> {
    /// The cut node.
    pub node: NodeId,
    /// What a certificate may claim hangs off this, never off `note`.
    pub kind: BoundaryKind,
    /// The residual between the last two train-driven iterates.
    pub sag_v: Residual<S>,
    /// The tolerance it was judged against, where one was set.
    pub tol_v: Option<S>,
    /// Whether the residual met its tolerance.
    pub accepted: bool,
    /// Whether rest estimates came from the per-group bootstrap.
    pub bootstrapped: bool,
    /// How many blocks the capture pulled beyond plain adjacency.
    pub capture_growth: usize,
    /// One line of provenance for a reader.
    pub note: &'static str,
}

impl<S: Scalar> StiffOutcome<S> {
    /// Whether an outcome says this.
    pub open spec fn says(
        &self,
        node: NodeId,
        kind: BoundaryKind,
        sag_v: Residual<S>,
        tol_v: Option<S>,
        accepted: bool,
        bootstrapped: bool,
        capture_growth: usize,
        note: Seq<char>,
    ) -> bool {
        &&& self.node == node
        &&& self.kind == kind
        &&& self.sag_v == sag_v
        &&& self.tol_v == tol_v
        &&& self.accepted == accepted
        &&& self.bootstrapped == bootstrapped
        &&& self.capture_growth == capture_growth
        &&& self.note@ == note
    }
}

/// The level a tolerance is relative to: the rest value, one volt at least.
pub open spec fn nominal<S: Scalar>(rest: S) -> S {
    at_least(rest.spec_abs(), S::spec_int(1))
}

/// The residual allowed at a level: ten times the relative tolerance.
pub open spec fn allowed<S: Scalar>(reltol: S, vnom: S) -> S {
    S::spec_int(10).spec_times(reltol).spec_times(vnom)
}

/// The residual allowed at a boundary of that rest value.
pub open spec fn tolerance<S: Scalar>(reltol: S, rest: S) -> S {
    allowed(reltol, nominal(rest))
}

pub fn allowance<S: Scalar>(reltol: S, vnom: S) -> (r: S)
    ensures
        r == allowed(reltol, vnom),
{
    S::from_int(10).times(reltol).times(vnom)
}

pub fn nominal_level<S: Scalar>(rest: S) -> (r: S)
    ensures
        r == nominal(rest),
{
    raise(rest.abs(), S::from_int(1))
}

pub fn boundary_tolerance<S: Scalar>(reltol: S, rest: S) -> (r: S)
    ensures
        r == tolerance(reltol, rest),
{
    allowance(reltol, nominal_level(rest))
}

/// Whether a residual is above a tolerance.
pub open spec fn exceeds<S: Scalar>(sag: Residual<S>, tol: S) -> bool {
    match sag {
        Residual::Volts(d) => tol.spec_less(d),
        Residual::Infinite => true,
        Residual::Unknown => false,
    }
}

/// Whether a residual meets a tolerance.
pub open spec fn meets<S: Scalar>(sag: Residual<S>, tol: S) -> bool {
    match sag {
        Residual::Volts(d) => d.spec_at_most(tol),
        _ => false,
    }
}

pub fn is_above<S: Scalar>(sag: Residual<S>, tol: S) -> (r: bool)
    ensures
        r == exceeds(sag, tol),
{
    match sag {
        Residual::Volts(d) => tol.less(d),
        Residual::Infinite => true,
        Residual::Unknown => false,
    }
}

pub fn is_met<S: Scalar>(sag: Residual<S>, tol: S) -> (r: bool)
    ensures
        r == meets(sag, tol),
{
    match sag {
        Residual::Volts(d) => d.at_most(tol),
        _ => false,
    }
}

/// Outcomes of a group that was never attempted: no measurement exists, but every
/// candidate says why.
pub fn out_of_scope_outcomes<S: Scalar>(
    candidates: &Vec<NodeId>,
    note: &'static str,
) -> (r: Vec<StiffOutcome<S>>)
    ensures
        r@.len() == candidates@.len(),
        forall|i: int|
            0 <= i < r@.len() ==> (#[trigger] r@[i]).says(
                candidates@[i],
                BoundaryKind::Signal,
                Residual::Unknown,
                None,
                false,
                false,
                0,
                note@,
            ),
{
    let mut out: Vec<StiffOutcome<S>> = Vec::new();
    let mut i: usize = 0;
    while i < candidates.len()
        invariant
            i <= candidates@.len(),
            out@.len() == i,
            forall|k: int|
                0 <= k < i ==> (#[trigger] out@[k]).says(
                    candidates@[k],
                    BoundaryKind::Signal,
                    Residual::Unknown,
                    None,
                    false,
                    false,
                    0,
                    note@,
                ),
        decreases candidates@.len() - i,
    {
        out.push(
            StiffOutcome {
                node: candidates[i],
                kind: BoundaryKind::Signal,
                sag_v: Residual::Unknown,
                tol_v: None,
                accepted: false,
                bootstrapped: false,
                capture_growth: 0,
                note,
            },
        );
        i = i + 1;
    }
    out
}

/// The value listed for a node, or zero.
pub open spec fn listed_value<S: Scalar>(values: Seq<S>, n: NodeId) -> S {
    if n.0 < values.len() {
        values[n.0 as int]
    } else {
        S::spec_zero()
    }
}

pub fn value_of<S: Scalar>(values: &Vec<S>, n: NodeId) -> (r: S)
    ensures
        r == listed_value(values@, n),
{
    if (n.0 as usize) < values.len() {
        values[n.0 as usize]
    } else {
        S::zero()
    }
}

/// What a candidate says after the capture at `dead` died.
pub open spec fn says_dead_capture<S: Scalar>(
    o: StiffOutcome<S>,
    node: NodeId,
    dead: NodeId,
    rest: Seq<S>,
    reltol: S,
    bootstrapped: bool,
) -> bool {
    o.says(
        node,
        BoundaryKind::Signal,
        if node == dead {
            Residual::Infinite
        } else {
            Residual::Unknown
        },
        Some(tolerance(reltol, listed_value(rest, node))),
        false,
        bootstrapped,
        0,
        if node == dead {
            "capture solve died (power-ramp retry included)"@
        } else {
            "unmeasured: a sibling capture died first"@
        },
    )
}

/// Outcomes of a group whose capture at `dead` died: that boundary carries an
/// infinite residual, the others none.
pub fn dead_capture_outcomes<S: Scalar>(
    candidates: &Vec<NodeId>,
    dead: NodeId,
    rest: &Vec<S>,
    reltol: S,
    bootstrapped: bool,
) -> (r: Vec<StiffOutcome<S>>)
    ensures
        r@.len() == candidates@.len(),
        forall|i: int|
            0 <= i < r@.len() ==> says_dead_capture(
                #[trigger] r@[i],
                candidates@[i],
                dead,
                rest@,
                reltol,
                bootstrapped,
            ),
{
    let mut out: Vec<StiffOutcome<S>> = Vec::new();
    let mut i: usize = 0;
    while i < candidates.len()
        invariant
            i <= candidates@.len(),
            out@.len() == i,
            forall|k: int|
                0 <= k < i ==> says_dead_capture(
                    #[trigger] out@[k],
                    candidates@[k],
                    dead,
                    rest@,
                    reltol,
                    bootstrapped,
                ),
        decreases candidates@.len() - i,
    {
        let node = candidates[i];
        let died: bool = node == dead;
        out.push(
            StiffOutcome {
                node,
                kind: BoundaryKind::Signal,
                sag_v: if died {
                    Residual::Infinite
                } else {
                    Residual::Unknown
                },
                tol_v: Some(boundary_tolerance(reltol, value_of(rest, node))),
                accepted: false,
                bootstrapped,
                capture_growth: 0,
                note: if died {
                    "capture solve died (power-ramp retry included)"
                } else {
                    "unmeasured: a sibling capture died first"
                },
            },
        );
        i = i + 1;
    }
    out
}

/// No dead capture is wordless: where a capture died, every outcome of its group
/// carries a note with text, and none is accepted.
pub proof fn law_refusals_have_words<S: Scalar>(
    o: StiffOutcome<S>,
    node: NodeId,
    dead: NodeId,
    rest: Seq<S>,
    reltol: S,
    bootstrapped: bool,
)
    requires
        says_dead_capture(o, node, dead, rest, reltol, bootstrapped),
    ensures
        !o.accepted,
        o.note@.len() > 0,
{
    reveal_strlit("capture solve died (power-ramp retry included)");
    reveal_strlit("unmeasured: a sibling capture died first");
}

/// A boundary's tolerance is ten times the relative tolerance of its level, which is its
/// rest value and never below a volt: a boundary at rest within a volt is judged as one
/// at a volt.
pub proof fn law_tolerances_are_relative_above_a_volt<S: Scalar>(reltol: S, rest: S)
    requires
        S::exact(),
        ordered::<S>(),
    ensures
        !S::spec_int(1).spec_less(rest.spec_abs()) ==> tolerance(reltol, rest) == S::spec_int(
            10,
        ).spec_times(reltol),
        S::spec_int(1).spec_less(rest.spec_abs()) ==> tolerance(reltol, rest) == S::spec_int(
            10,
        ).spec_times(reltol).spec_times(rest.spec_abs()),
        !nominal(rest).spec_less(S::spec_int(1)),
        !nominal(rest).spec_less(rest.spec_abs()),
{
    let one = S::spec_int(1);
    S::laws(S::spec_int(10).spec_times(reltol), one, one);
    S::laws(one, one, one);
    S::laws(rest.spec_abs(), one, one);
}

/// No residual both meets a tolerance and exceeds it, a measured one does one of the
/// two, one beyond any number exceeds every tolerance, and one that was never measured
/// does neither.
pub proof fn law_a_residual_meets_or_exceeds<S: Scalar>(sag: Residual<S>, tol: S)
    requires
        forall|a: S, b: S| #[trigger] a.spec_at_most(b) <==> !b.spec_less(a),
    ensures
        !(meets(sag, tol) && exceeds(sag, tol)),
        sag is Volts ==> meets(sag, tol) || exceeds(sag, tol),
        sag is Volts ==> (exceeds(sag, tol) <==> tol.spec_less(sag->Volts_0)),
        sag is Infinite ==> exceeds(sag, tol) && !meets(sag, tol),
        sag is Unknown ==> !exceeds(sag, tol) && !meets(sag, tol),
{
}

} // verus!
