//! What the boundaries of a composed group say.
use vstd::prelude::*;

use crate::circuit::NodeId;
use crate::orchestrate::capture::composed::{seed_or_zero, seed_value, Composed};
use crate::orchestrate::capture::outcome::{
    allowance, allowed, boundary_tolerance, listed_value, nominal, nominal_level, tolerance,
    value_of, StiffOutcome,
};
use crate::orchestrate::capture::BoundaryKind;
use crate::orchestrate::grid::{
    constant_train, defined, resample, resampled, Residual, Waveforms,
};
use crate::orchestrate::tear::RailTear;
use crate::scalar::{ordered, Scalar};
use crate::stamp::context::{frac, ratio};

verus! {

/// The kind of every rail of a group: balanced where the balance marches the whole
/// group, held otherwise.
pub open spec fn kind_of_rails(whole: bool) -> BoundaryKind {
    if whole {
        BoundaryKind::BalancedRail
    } else {
        BoundaryKind::HeldRail
    }
}

pub fn rail_kind(whole: bool) -> (r: BoundaryKind)
    ensures
        r == kind_of_rails(whole),
{
    if whole {
        BoundaryKind::BalancedRail
    } else {
        BoundaryKind::HeldRail
    }
}

/// The residual allowed at a rail of that seed.
pub open spec fn rail_tolerance<S: Scalar>(
    reltol: S,
    seeds: Seq<Option<S>>,
    rail: NodeId,
) -> S {
    allowed(reltol, nominal(seed_or_zero(seeds, rail)))
}

/// What a signal of a refused group says; `dead` is the signal whose solve died,
/// if one did.
pub open spec fn says_refused_signal<S: Scalar>(
    o: StiffOutcome<S>,
    node: NodeId,
    dead: Option<NodeId>,
    rest: Seq<S>,
    reltol: S,
    bootstrapped: bool,
) -> bool {
    o.says(
        node,
        BoundaryKind::Signal,
        if dead == Some(node) {
            Residual::Infinite
        } else {
            Residual::Unknown
        },
        Some(tolerance(reltol, listed_value(rest, node))),
        false,
        bootstrapped,
        0,
        match dead {
            Some(d) => if d == node {
                "composed capture died at this signal"@
            } else {
                "unmeasured: a sibling signal solve died first"@
            },
            None => "composed relaxation did not contract within the round budget"@,
        },
    )
}

/// What a rail of a refused group says.
pub open spec fn says_refused_rail<S: Scalar>(
    o: StiffOutcome<S>,
    rail: NodeId,
    whole: bool,
    seeds: Seq<Option<S>>,
    reltol: S,
    bootstrapped: bool,
) -> bool {
    o.says(
        rail,
        kind_of_rails(whole),
        Residual::Unknown,
        Some(rail_tolerance(reltol, seeds, rail)),
        false,
        bootstrapped,
        0,
        "composed relaxation refused; rail balance not certified"@,
    )
}

/// Outcomes of the rails of a refused group: none has a certified balance.
pub fn refused_rails<S: Scalar>(c: &Composed<S>) -> (r: Vec<StiffOutcome<S>>)
    ensures
        r@.len() == c.rails@.len(),
        forall|i: int|
            0 <= i < r@.len() ==> says_refused_rail(
                #[trigger] r@[i],
                c.rails@[i].rail,
                c.whole,
                c.seeds@,
                c.reltol,
                c.bootstrapped,
            ),
{
    let mut out: Vec<StiffOutcome<S>> = Vec::new();
    let mut i: usize = 0;
    while i < c.rails.len()
        invariant
            i <= c.rails@.len(),
            out@.len() == i,
            forall|k: int|
                0 <= k < i ==> says_refused_rail(
                    #[trigger] out@[k],
                    c.rails@[k].rail,
                    c.whole,
                    c.seeds@,
                    c.reltol,
                    c.bootstrapped,
                ),
        decreases c.rails@.len() - i,
    {
        let rail = c.rails[i].rail;
        out.push(
            StiffOutcome {
                node: rail,
                kind: rail_kind(c.whole),
                sag_v: Residual::Unknown,
                tol_v: Some(
                    allowance(c.reltol, nominal_level(seed_value(&c.seeds, rail))),
                ),
                accepted: false,
                bootstrapped: c.bootstrapped,
                capture_growth: 0,
                note: "composed relaxation refused; rail balance not certified",
            },
        );
        i = i + 1;
    }
    out
}

/// Outcomes of a refused group, signals first.
pub fn composed_refusal_outcomes<S: Scalar>(
    c: &Composed<S>,
    dead: Option<NodeId>,
) -> (r: Vec<StiffOutcome<S>>)
    ensures
        r@.len() == c.signals@.len() + c.rails@.len(),
        forall|i: int|
            0 <= i < c.signals@.len() ==> says_refused_signal(
                #[trigger] r@[i],
                c.signals@[i],
                dead,
                c.rest@,
                c.reltol,
                c.bootstrapped,
            ),
        forall|i: int|
            0 <= i < c.rails@.len() ==> #[trigger] says_refused_rail(
                r@[c.signals@.len() + i],
                c.rails@[i].rail,
                c.whole,
                c.seeds@,
                c.reltol,
                c.bootstrapped,
            ),
{
    let mut out: Vec<StiffOutcome<S>> = Vec::new();
    let mut i: usize = 0;
    while i < c.signals.len()
        invariant
            i <= c.signals@.len(),
            out@.len() == i,
            forall|k: int|
                0 <= k < i ==> says_refused_signal(
                    #[trigger] out@[k],
                    c.signals@[k],
                    dead,
                    c.rest@,
                    c.reltol,
                    c.bootstrapped,
                ),
        decreases c.signals@.len() - i,
    {
        let node = c.signals[i];
        let note: &'static str = match dead {
            Some(d) => if d == node {
                "composed capture died at this signal"
            } else {
                "unmeasured: a sibling signal solve died first"
            },
            None => "composed relaxation did not contract within the round budget",
        };
        let sag: Residual<S> = match dead {
            Some(d) => if d == node {
                Residual::Infinite
            } else {
                Residual::Unknown
            },
            None => Residual::Unknown,
        };
        out.push(
            StiffOutcome {
                node,
                kind: BoundaryKind::Signal,
                sag_v: sag,
                tol_v: Some(boundary_tolerance(c.reltol, value_of(&c.rest, node))),
                accepted: false,
                bootstrapped: c.bootstrapped,
                capture_growth: 0,
                note,
            },
        );
        i = i + 1;
    }
    let ghost signals = out@;
    let rails = refused_rails(c);
    let mut k: usize = 0;
    while k < rails.len()
        invariant
            k <= rails@.len(),
            signals.len() == c.signals@.len(),
            out@ == signals + rails@.take(k as int),
        decreases rails@.len() - k,
    {
        out.push(rails[k]);
        assert(rails@.take(k + 1) =~= rails@.take(k as int).push(rails@[k as int]));
        k = k + 1;
    }
    proof {
        assert(rails@.take(k as int) =~= rails@);
        assert forall|i: int| 0 <= i < c.rails@.len() implies #[trigger] says_refused_rail(
            out@[c.signals@.len() + i],
            c.rails@[i].rail,
            c.whole,
            c.seeds@,
            c.reltol,
            c.bootstrapped,
        ) by {
            assert(out@[c.signals@.len() + i] == rails@[i]);
        }
    }
    out
}

/// The larger of a bound and a number, which is passed over where undefined.
pub open spec fn higher<S: Scalar>(best: Option<S>, v: S) -> Option<S> {
    if !defined(v) {
        best
    } else {
        match best {
            None => Some(v),
            Some(b) => if b.spec_less(v) {
                Some(v)
            } else {
                Some(b)
            },
        }
    }
}

/// The smaller of a bound and a number, which is passed over where undefined.
pub open spec fn lower<S: Scalar>(best: Option<S>, v: S) -> Option<S> {
    if !defined(v) {
        best
    } else {
        match best {
            None => Some(v),
            Some(b) => if v.spec_less(b) {
                Some(v)
            } else {
                Some(b)
            },
        }
    }
}

/// The highest and the lowest of the first `count` samples.
pub open spec fn extremes<S: Scalar>(train: Seq<S>, count: nat) -> (Option<S>, Option<S>)
    decreases count,
{
    if count == 0 {
        (None, None)
    } else {
        let (hi, lo) = extremes(train, (count - 1) as nat);
        (higher(hi, train[count - 1]), lower(lo, train[count - 1]))
    }
}

/// Whether a train moves by less than a hundredth of a level.
pub open spec fn flat<S: Scalar>(train: Seq<S>, vnom: S) -> bool {
    match extremes(train, train.len()) {
        (Some(hi), Some(lo)) => hi.spec_minus(lo).spec_less(
            frac::<S>(1, 100).spec_times(vnom),
        ),
        _ => true,
    }
}

fn is_flat<S: Scalar>(train: &Vec<S>, vnom: S) -> (r: bool)
    ensures
        r == flat(train@, vnom),
{
    let mut hi: Option<S> = None;
    let mut lo: Option<S> = None;
    let mut k: usize = 0;
    while k < train.len()
        invariant
            k <= train@.len(),
            (hi, lo) == extremes(train@, k as nat),
        decreases train@.len() - k,
    {
        let v: S = train[k];
        if v.at_most(v) {
            hi = match hi {
                None => Some(v),
                Some(b) => if b.less(v) {
                    Some(v)
                } else {
                    Some(b)
                },
            };
            lo = match lo {
                None => Some(v),
                Some(b) => if v.less(b) {
                    Some(v)
                } else {
                    Some(b)
                },
            };
        }
        k = k + 1;
    }
    match (hi, lo) {
        (Some(h), Some(l)) => h.minus(l).less(ratio::<S>(1, 100).times(vnom)),
        _ => true,
    }
}

/// What a signal of a settled group says. A train that settled flat may have
/// missed the true answer, and says so.
pub open spec fn says_settled_signal<S: Scalar>(
    o: StiffOutcome<S>,
    c: &Composed<S>,
    node: NodeId,
) -> bool {
    let vnom = nominal(listed_value(c.rest@, node));
    o.says(
        node,
        BoundaryKind::Signal,
        c.sag@[node.0 as int],
        Some(allowed(c.reltol, vnom)),
        true,
        c.bootstrapped,
        c.growth@[node.0 as int],
        if flat(c.trains@[node.0 as int]@, vnom) {
            "converged flat (quiet-basin candidate)"@
        } else {
            ""@
        },
    )
}

/// What a rail of a settled group says: no sag either way, and which claim that is
/// lies in the kind.
pub open spec fn says_settled_rail<S: Scalar>(
    o: StiffOutcome<S>,
    c: &Composed<S>,
    rail: NodeId,
) -> bool {
    o.says(
        rail,
        kind_of_rails(c.whole),
        Residual::Volts(S::spec_zero()),
        Some(rail_tolerance(c.reltol, c.seeds@, rail)),
        true,
        c.bootstrapped,
        0,
        if c.whole {
            "balanced rail"@
        } else {
            "held rail (stiff-supply feed)"@
        },
    )
}

/// Outcomes of a settled group, signals first.
pub fn composed_outcomes<S: Scalar>(c: &Composed<S>) -> (r: Vec<StiffOutcome<S>>)
    requires
        c.wf(),
    ensures
        r@.len() == c.signals@.len() + c.rails@.len(),
        forall|i: int|
            0 <= i < c.signals@.len() ==> says_settled_signal(#[trigger] r@[i], c, c.signals@[i]),
        forall|i: int|
            0 <= i < c.rails@.len() ==> #[trigger] says_settled_rail(
                r@[c.signals@.len() + i],
                c,
                c.rails@[i].rail,
            ),
{
    let mut out: Vec<StiffOutcome<S>> = Vec::new();
    let mut i: usize = 0;
    while i < c.signals.len()
        invariant
            i <= c.signals@.len(),
            c.wf(),
            out@.len() == i,
            forall|k: int|
                0 <= k < i ==> says_settled_signal(#[trigger] out@[k], c, c.signals@[k]),
        decreases c.signals@.len() - i,
    {
        let node = c.signals[i];
        assert(c.signals@[i as int].0 < c.trains@.len());
        let n: usize = node.0 as usize;
        let vnom: S = nominal_level(value_of(&c.rest, node));
        let quiet: bool = is_flat(&c.trains[n], vnom);
        out.push(
            StiffOutcome {
                node,
                kind: BoundaryKind::Signal,
                sag_v: c.sag[n],
                tol_v: Some(allowance(c.reltol, vnom)),
                accepted: true,
                bootstrapped: c.bootstrapped,
                capture_growth: c.growth[n],
                note: if quiet {
                    "converged flat (quiet-basin candidate)"
                } else {
                    ""
                },
            },
        );
        i = i + 1;
    }
    let mut k: usize = 0;
    while k < c.rails.len()
        invariant
            k <= c.rails@.len(),
            out@.len() == c.signals@.len() + k,
            forall|j: int|
                0 <= j < c.signals@.len() ==> says_settled_signal(
                    #[trigger] out@[j],
                    c,
                    c.signals@[j],
                ),
            forall|j: int|
                0 <= j < k ==> #[trigger] says_settled_rail(
                    out@[c.signals@.len() + j],
                    c,
                    c.rails@[j].rail,
                ),
        decreases c.rails@.len() - k,
    {
        let ghost before = out@;
        let rail = c.rails[k].rail;
        out.push(
            StiffOutcome {
                node: rail,
                kind: rail_kind(c.whole),
                sag_v: Residual::Volts(S::zero()),
                tol_v: Some(
                    allowance(c.reltol, nominal_level(seed_value(&c.seeds, rail))),
                ),
                accepted: true,
                bootstrapped: c.bootstrapped,
                capture_growth: 0,
                note: if c.whole {
                    "balanced rail"
                } else {
                    "held rail (stiff-supply feed)"
                },
            },
        );
        proof {
            assert forall|j: int| 0 <= j < c.signals@.len() implies says_settled_signal(
                #[trigger] out@[j],
                c,
                c.signals@[j],
            ) by {
                assert(out@[j] == before[j]);
            }
            assert forall|j: int| 0 <= j < k + 1 implies #[trigger] says_settled_rail(
                out@[c.signals@.len() + j],
                c,
                c.rails@[j].rail,
            ) by {
                if j < k {
                    assert(says_settled_rail(before[c.signals@.len() + j], c, c.rails@[j].rail));
                    assert(out@[c.signals@.len() + j] == before[c.signals@.len() + j]);
                }
            }
        }
        k = k + 1;
    }
    out
}

/// A rail is called balanced only where the whole group was balanced, whatever its
/// note says.
pub proof fn law_held_rails_never_claim_balance<S: Scalar>(
    o: StiffOutcome<S>,
    c: &Composed<S>,
    rail: NodeId,
)
    requires
        says_settled_rail(o, c, rail) || says_refused_rail(
            o,
            rail,
            c.whole,
            c.seeds@,
            c.reltol,
            c.bootstrapped,
        ),
    ensures
        o.kind == BoundaryKind::BalancedRail <==> c.whole,
        o.kind == BoundaryKind::HeldRail <==> !c.whole,
{
}

/// The series of a node in the answer: from the run where there is one and it has
/// the node, else zero.
pub open spec fn answer_of<S: Scalar>(run: &Waveforms<S>, grid: Seq<S>, n: int) -> Seq<S> {
    if n < run.node_voltages@.len() {
        resampled(run.time@, run.node_voltages@[n]@, grid)
    } else {
        Seq::new(grid.len(), |k: int| S::spec_zero())
    }
}

/// A group's waveforms from one run of the whole group.
pub fn assemble_run<S: Scalar>(run: &Waveforms<S>, nodes: usize, grid: &Vec<S>) -> (r: Waveforms<S>)
    requires
        run.wf(),
        nodes > 0,
    ensures
        r.time@ == grid@,
        r.node_voltages@.len() == nodes,
        r.node_voltages@[0]@ == Seq::new(grid@.len(), |k: int| S::spec_zero()),
        forall|n: int|
            1 <= n < nodes ==> (#[trigger] r.node_voltages@[n])@ == answer_of(run, grid@, n),
{
    let mut voltages: Vec<Vec<S>> = Vec::new();
    voltages.push(constant_train(S::zero(), grid.len()));
    let mut n: usize = 1;
    while n < nodes
        invariant
            1 <= n <= nodes,
            run.wf(),
            voltages@.len() == n,
            voltages@[0]@ == Seq::new(grid@.len(), |k: int| S::spec_zero()),
            forall|k: int|
                1 <= k < n ==> (#[trigger] voltages@[k])@ == answer_of(run, grid@, k),
        decreases nodes - n,
    {
        if n < run.node_voltages.len() {
            voltages.push(resample(run, n, grid));
        } else {
            voltages.push(constant_train(S::zero(), grid.len()));
        }
        n = n + 1;
    }
    Waveforms { time: crate::duplicate::copied_list(grid), node_voltages: voltages }
}

/// Whether a node is one of the first `count` rails.
pub open spec fn is_rail<S>(rails: Seq<RailTear<S>>, n: int, count: int) -> bool {
    exists|i: int| 0 <= i < count && (#[trigger] rails[i]).rail.0 == n
}

/// A group's waveforms where there is nothing but held rails.
pub fn assemble_rails<S: Scalar>(c: &Composed<S>, nodes: usize, grid: &Vec<S>) -> (r: Waveforms<S>)
    requires
        c.wf(),
        nodes <= c.trains@.len(),
    ensures
        r.time@ == grid@,
        r.node_voltages@.len() == nodes,
        forall|n: int|
            0 <= n < nodes ==> (#[trigger] r.node_voltages@[n])@ == (if is_rail(
                c.rails@,
                n,
                c.rails@.len() as int,
            ) {
                c.trains@[n]@
            } else {
                Seq::new(grid@.len(), |k: int| S::spec_zero())
            }),
{
    let mut voltages: Vec<Vec<S>> = Vec::new();
    let mut n: usize = 0;
    while n < nodes
        invariant
            n <= nodes <= c.trains@.len(),
            voltages@.len() == n,
            forall|k: int|
                0 <= k < n ==> (#[trigger] voltages@[k])@ == (if is_rail(
                    c.rails@,
                    k,
                    c.rails@.len() as int,
                ) {
                    c.trains@[k]@
                } else {
                    Seq::new(grid@.len(), |k: int| S::spec_zero())
                }),
        decreases nodes - n,
    {
        let mut hit: bool = false;
        let mut i: usize = 0;
        while i < c.rails.len()
            invariant
                i <= c.rails@.len(),
                hit == is_rail(c.rails@, n as int, i as int),
            decreases c.rails@.len() - i,
        {
            if c.rails[i].rail.0 as usize == n {
                assert(c.rails@[i as int].rail.0 == n);
                hit = true;
            }
            i = i + 1;
        }
        if hit {
            voltages.push(crate::duplicate::copied_list(&c.trains[n]));
        } else {
            voltages.push(constant_train(S::zero(), grid.len()));
        }
        n = n + 1;
    }
    Waveforms { time: crate::duplicate::copied_list(grid), node_voltages: voltages }
}

/// The extremes of a train are two of its samples, and no sample with a value is above
/// the one or below the other; they are missing only where no sample has a value.
pub proof fn law_extremes_bound_the_train<S: Scalar>(train: Seq<S>, count: nat)
    requires
        ordered::<S>(),
        count <= train.len(),
    ensures
        match extremes(train, count) {
            (Some(hi), Some(lo)) => {
                &&& hi.spec_at_most(hi) && lo.spec_at_most(lo)
                &&& exists|k: int| 0 <= k < count && #[trigger] train[k] == hi
                &&& exists|k: int| 0 <= k < count && #[trigger] train[k] == lo
                &&& forall|k: int|
                    0 <= k < count && (#[trigger] train[k]).spec_at_most(train[k])
                        ==> !hi.spec_less(train[k]) && !train[k].spec_less(lo)
            },
            (None, None) => forall|k: int|
                0 <= k < count ==> !(#[trigger] train[k]).spec_at_most(train[k]),
            _ => false,
        },
    decreases count,
{
    if count > 0 {
        let c = (count - 1) as nat;
        law_extremes_bound_the_train(train, c);
        let v = train[count - 1];
        if v.spec_at_most(v) {
            match extremes(train, c) {
                (Some(hi), Some(lo)) => {
                    let i = choose|k: int| 0 <= k < c && #[trigger] train[k] == hi;
                    let j = choose|k: int| 0 <= k < c && #[trigger] train[k] == lo;
                    assert(train[i] == hi && train[j] == lo);
                    let (h2, l2) = (higher(Some(hi), v)->0, lower(Some(lo), v)->0);
                    assert forall|k: int|
                        0 <= k < count && (#[trigger] train[k]).spec_at_most(
                            train[k],
                        ) implies !h2.spec_less(train[k]) && !train[k].spec_less(l2) by {
                        if k < c {
                            assert(!hi.spec_less(train[k]) && !train[k].spec_less(lo));
                        }
                    }
                },
                _ => {},
            }
        } else {
            match extremes(train, c) {
                (Some(hi), Some(lo)) => {
                    let i = choose|k: int| 0 <= k < c && #[trigger] train[k] == hi;
                    let j = choose|k: int| 0 <= k < c && #[trigger] train[k] == lo;
                    assert(train[i] == hi && train[j] == lo);
                },
                _ => {},
            }
        }
    }
}

/// A train is flat where its extremes are within a hundredth of the level of each other.
pub proof fn law_a_flat_train_stays_within_a_hundredth<S: Scalar>(train: Seq<S>, vnom: S)
    requires
        S::exact(),
        S::spec_int(100) != S::spec_zero(),
    ensures
        extremes(train, train.len()) matches (Some(hi), Some(lo)) ==> exists|part: S|
            {
                &&& #[trigger] part.spec_times(S::spec_int(100)) == vnom
                &&& flat(train, vnom) == hi.spec_minus(lo).spec_less(part)
            },
{
    let n = S::spec_int(100);
    let one = S::spec_int(1);
    let part = frac::<S>(1, 100).spec_times(vnom);
    S::laws(one, n, n);
    S::laws(frac::<S>(1, 100), vnom, n);
    S::laws(vnom, n, n);
    S::laws(frac::<S>(1, 100), n, vnom);
    S::laws(one, vnom, vnom);
    S::laws(vnom, one, one);
    assert(part.spec_times(n) == vnom);
}

} // verus!
