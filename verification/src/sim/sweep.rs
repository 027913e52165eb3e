//! The `.dc` sweep: an operating point per value of a source.
use vstd::prelude::*;

use crate::circuit::{Circuit, Device, DeviceId, SourceKind};
use crate::error::{ErrorView, SolveError};
use crate::field::lemma_product;
use crate::options::SolverOptions;
use crate::scalar::{ordered, Scalar};
use crate::sim::output::{budget_of, error_budget, SimOutput, WorstResidual};
use crate::sim::resolve::{labels, labels_of, texts};
use crate::sim::Probe;
use crate::stamp::context::{at_least, frac, raise, ratio};
use crate::terms::{group_sums, lemma_same_terms, term};

verus! {

/// How many steps a sweep may take: the steps that fit, with an allowance for
/// rounding.
pub open spec fn step_bound<S: Scalar>(start: S, stop: S, step: S) -> S {
    let steps = stop.spec_minus(start).spec_over(step);
    steps.spec_plus(
        frac::<S>(1, 1_000_000_000).spec_times(at_least(steps.spec_abs(), S::spec_int(1))),
    )
}

/// The value of a sweep after `k` steps.
pub open spec fn swept<S: Scalar>(start: S, step: S, k: int) -> S {
    start.spec_plus(step.spec_times(S::spec_int(k as i64)))
}

/// `start` to `stop` by `step`, both ends included where the steps come out even. A
/// sweep that would not fit in memory is cut there.
pub fn dc_sweep_values<S: Scalar>(start: S, stop: S, step: S) -> (r: Vec<S>)
    ensures
        1 <= r@.len() <= i64::MAX,
        forall|k: int|
            0 <= k < r@.len() ==> #[trigger] r@[k] == swept(start, step, k),
        forall|k: int|
            #![trigger S::spec_int(k as i64)]
            1 <= k < r@.len() ==> S::spec_int(k as i64).spec_at_most(step_bound(start, stop, step)),
        S::spec_int(r@.len() as i64).spec_at_most(step_bound(start, stop, step)) ==> r@.len()
            == usize::MAX || r@.len() == i64::MAX,
{
    let steps = stop.minus(start).over(step);
    let bound = steps.plus(
        ratio::<S>(1, 1_000_000_000).times(raise(steps.abs(), S::from_int(1))),
    );
    let mut out: Vec<S> = Vec::new();
    out.push(start.plus(step.times(S::from_int(0))));
    let mut next: i64 = 1;
    while out.len() < usize::MAX && next < 9_223_372_036_854_775_807 && S::from_int(
        next,
    ).at_most(bound)
        invariant
            bound == step_bound(start, stop, step),
            1 <= next <= i64::MAX,
            out@.len() == next,
            forall|k: int|
                0 <= k < out@.len() ==> #[trigger] out@[k] == swept(start, step, k),
            forall|k: int|
                #![trigger S::spec_int(k as i64)]
                1 <= k < out@.len() ==> S::spec_int(k as i64).spec_at_most(bound),
        decreases i64::MAX - next,
    {
        out.push(start.plus(step.times(S::from_int(next))));
        next = next + 1;
    }
    out
}

/// Whether a device is an independent source of the given constant value.
pub open spec fn set_to<S: Scalar>(was: Device<S>, v: S, now: Device<S>) -> bool {
    match was {
        Device::Vsource { name, p, n, .. } => now == (Device::Vsource {
            name,
            p,
            n,
            kind: SourceKind::Dc(v),
        }),
        Device::Isource { name, p, n, .. } => now == (Device::Isource {
            name,
            p,
            n,
            kind: SourceKind::Dc(v),
        }),
        _ => false,
    }
}

fn set_device<S: Scalar>(dev: &mut Device<S>, v: S)
    requires
        *old(dev) is Vsource || *old(dev) is Isource,
    ensures
        set_to(*old(dev), v, *final(dev)),
{
    match dev {
        Device::Vsource { kind, .. } => {
            *kind = SourceKind::Dc(v);
        },
        Device::Isource { kind, .. } => {
            *kind = SourceKind::Dc(v);
        },
        _ => {},
    }
}

/// Set a source to a constant value.
pub fn set_source_value<S: Scalar>(circuit: &mut Circuit<S>, id: DeviceId, value: S)
    requires
        old(circuit).wf(),
        id.0 < old(circuit).devices@.len(),
        old(circuit).devices@[id.0 as int] is Vsource || old(circuit).devices@[id.0 as int] is Isource,
    ensures
        final(circuit).wf(),
        final(circuit).names == old(circuit).names,
        final(circuit).temp_c == old(circuit).temp_c,
        final(circuit).devices@.len() == old(circuit).devices@.len(),
        set_to(
            old(circuit).devices@[id.0 as int],
            value,
            final(circuit).devices@[id.0 as int],
        ),
        forall|d: int|
            0 <= d < old(circuit).devices@.len() && d != id.0 ==> (#[trigger] final(
                circuit).devices@[d]) == old(circuit).devices@[d],
{
    set_device(&mut circuit.devices[id.0 as usize], value);
}

/// The points of a sweep for one outer value.
pub open spec fn block<S>(inner: Seq<S>, outer: Option<S>) -> Seq<(S, Option<S>)> {
    Seq::new(inner.len(), |i: int| (inner[i], outer))
}

/// The points of a sweep for the first `count` outer values, block after block.
pub open spec fn blocks<S>(inner: Seq<S>, outer: Seq<S>, count: nat) -> Seq<(S, Option<S>)>
    decreases count,
{
    if count == 0 {
        Seq::empty()
    } else {
        blocks(inner, outer, (count - 1) as nat) + block(inner, Some(outer[count - 1]))
    }
}

/// The points of a sweep: the inner value and, in a nested sweep, the outer one.
pub open spec fn points_of<S>(inner: Seq<S>, outer: Option<Vec<S>>) -> Seq<(S, Option<S>)> {
    match outer {
        Some(o) => blocks(inner, o@, o@.len()),
        None => block(inner, None),
    }
}

fn push_block<S: Scalar>(out: &mut Vec<(S, Option<S>)>, inner: &Vec<S>, outer: Option<S>)
    ensures
        final(out)@ == old(out)@ + block(inner@, outer),
{
    let ghost start = out@;
    let ghost all = block(inner@, outer);
    let mut i: usize = 0;
    while i < inner.len()
        invariant
            i <= inner@.len(),
            all == block(inner@, outer),
            out@ == start + all.take(i as int),
        decreases inner@.len() - i,
    {
        out.push((inner[i], outer));
        assert(all.take(i + 1) =~= all.take(i as int).push(all[i as int]));
        i = i + 1;
    }
    assert(all.take(i as int) =~= all);
}

/// The points of a sweep in the order in which they are solved.
pub fn sweep_points<S: Scalar>(inner: &Vec<S>, outer: &Option<Vec<S>>) -> (r: Vec<(S, Option<S>)>)
    ensures
        r@ == points_of(inner@, *outer),
{
    let mut out: Vec<(S, Option<S>)> = Vec::new();
    match outer {
        None => {
            push_block(&mut out, inner, None);
            assert(out@ =~= block(inner@, None));
        },
        Some(o) => {
            let mut k: usize = 0;
            while k < o.len()
                invariant
                    k <= o@.len(),
                    out@ == blocks(inner@, o@, k as nat),
                decreases o@.len() - k,
            {
                push_block(&mut out, inner, Some(o[k]));
                k = k + 1;
            }
        },
    }
    out
}

/// The row of a point: the inner value, the probes, and the outer value last.
pub open spec fn sweep_row<S>(point: (S, Option<S>), probed: Seq<S>) -> Seq<S> {
    let row = seq![point.0] + probed;
    match point.1 {
        Some(o) => row.push(o),
        None => row,
    }
}

fn make_row<S: Scalar>(point: (S, Option<S>), probed: &Vec<S>) -> (r: Vec<S>)
    ensures
        r@ == sweep_row(point, probed@),
{
    let mut row: Vec<S> = Vec::new();
    row.push(point.0);
    let mut i: usize = 0;
    while i < probed.len()
        invariant
            i <= probed@.len(),
            row@ == seq![point.0] + probed@.take(i as int),
        decreases probed@.len() - i,
    {
        row.push(probed[i]);
        assert(probed@.take(i + 1) =~= probed@.take(i as int).push(probed@[i as int]));
        i = i + 1;
    }
    assert(probed@.take(i as int) =~= probed@);
    match point.1 {
        Some(o) => {
            row.push(o);
        },
        None => {},
    }
    row
}

/// The first of the largest imbalances among the first `count` points.
pub open spec fn worst_of<S: Scalar>(residuals: Seq<S>, count: nat) -> Option<int>
    decreases count,
{
    if count == 0 {
        None
    } else {
        let so_far = worst_of(residuals, (count - 1) as nat);
        match so_far {
            Some(k) => if residuals[k].spec_less(residuals[count - 1]) {
                Some(count - 1)
            } else {
                so_far
            },
            None => Some(count - 1),
        }
    }
}

/// The position of the largest imbalance; of the first where several are as large.
pub fn worst_point<S: Scalar>(residuals: &Vec<S>) -> (r: Option<usize>)
    ensures
        match worst_of(residuals@, residuals@.len()) {
            Some(k) => r matches Some(i) && i == k && i < residuals@.len(),
            None => r is None,
        },
{
    let mut worst: Option<usize> = None;
    let mut i: usize = 0;
    while i < residuals.len()
        invariant
            i <= residuals@.len(),
            match worst_of(residuals@, i as nat) {
                Some(k) => worst matches Some(w) && w == k && w < i,
                None => worst is None,
            },
        decreases residuals@.len() - i,
    {
        match worst {
            Some(w) => {
                if residuals[w].less(residuals[i]) {
                    worst = Some(i);
                }
            },
            None => {
                worst = Some(i);
            },
        }
        i = i + 1;
    }
    worst
}

/// The columns of a sweep: the inner source, the probes, and the outer source last.
pub open spec fn sweep_columns(inner: Seq<char>, probes: Seq<Probe>, outer: Option<String>) -> Seq<
    Seq<char>,
> {
    let all = seq![inner] + labels_of(probes);
    match outer {
        Some(o) => all.push(o@),
        None => all,
    }
}

/// Report a sweep: a row per point, in the order in which the points were solved.
pub fn dc_output<S: Scalar>(
    inner: &str,
    outer: &Option<String>,
    points: &Vec<(S, Option<S>)>,
    probed: &Vec<Vec<S>>,
    worst: Option<WorstResidual<S>>,
    opts: &SolverOptions<S>,
    objection: &Option<String>,
    probes: &Vec<Probe>,
) -> (r: Result<SimOutput<S>, SolveError>)
    requires
        probed@.len() == points@.len(),
        forall|k: int| 0 <= k < points@.len() ==> (#[trigger] points@[k]).1 is Some == outer is Some,
        forall|k: int| 0 <= k < probed@.len() ==> (#[trigger] probed@[k])@.len() == probes@.len(),
    ensures
        match objection {
            Some(why) => r matches Err(e) && e@ == ErrorView::Invalid(
                "invalid solver error budget: "@ + why@,
            ),
            None => r matches Ok(out) && {
                &&& out.wf()
                &&& texts(out.columns@) == sweep_columns(inner@, probes@, *outer)
                &&& out.time is None
                &&& out.rows@.len() == points@.len()
                &&& forall|k: int|
                    0 <= k < points@.len() ==> (#[trigger] out.rows@[k])@ == sweep_row(
                        points@[k],
                        probed@[k]@,
                    )
                &&& budget_of(opts, out.error_budget)
                &&& out.error_budget.window is None
                &&& out.error_budget.residual == worst
            },
        },
{
    let mut columns: Vec<String> = Vec::new();
    columns.push(String::from_str(inner));
    let mut more = labels(probes);
    let ghost labelled = more@;
    columns.append(&mut more);
    match outer {
        Some(o) => {
            columns.push(String::from_str(o.as_str()));
        },
        None => {},
    }
    proof {
        assert forall|i: int| 0 <= i < labelled.len() implies #[trigger] labelled[i]@ == labels_of(
            probes@,
        )[i] by {
            assert(texts(labelled)[i] == labelled[i]@);
        }
        assert(labelled.len() == texts(labelled).len());
        assert(texts(columns@) =~= sweep_columns(inner@, probes@, *outer));
        assert(columns@.len() == texts(columns@).len());
    }
    let mut rows: Vec<Vec<S>> = Vec::new();
    let mut k: usize = 0;
    while k < points.len()
        invariant
            k <= points@.len(),
            probed@.len() == points@.len(),
            forall|k: int|
                0 <= k < points@.len() ==> (#[trigger] points@[k]).1 is Some == outer is Some,
            forall|k: int|
                0 <= k < probed@.len() ==> (#[trigger] probed@[k])@.len() == probes@.len(),
            columns@.len() == 1 + probes@.len() + if outer is Some {
                1int
            } else {
                0int
            },
            rows@.len() == k,
            forall|j: int|
                0 <= j < k ==> (#[trigger] rows@[j])@ == sweep_row(points@[j], probed@[j]@)
                    && rows@[j]@.len() == columns@.len(),
        decreases points@.len() - k,
    {
        assert(probed@[k as int]@.len() == probes@.len());
        assert(points@[k as int].1 is Some == outer is Some);
        let row = make_row(points[k], &probed[k]);
        rows.push(row);
        k = k + 1;
    }
    let mut budget = match error_budget(opts, objection) {
        Ok(b) => b,
        Err(e) => {
            return Err(e);
        },
    };
    budget.residual = worst;
    Ok(SimOutput { columns, time: None, rows, error_budget: budget })
}

/// A nested sweep walks the whole inner sweep for every outer value: the points come
/// block after block.
pub proof fn law_blocks_are_concatenated<S>(inner: Seq<S>, outer: Seq<S>, o: int, i: int)
    requires
        0 <= o < outer.len(),
        0 <= i < inner.len(),
    ensures
        blocks(inner, outer, outer.len()).len() == outer.len() * inner.len(),
        0 <= o * inner.len() + i < blocks(inner, outer, outer.len()).len(),
        blocks(inner, outer, outer.len())[o * inner.len() + i] == (inner[i], Some(outer[o])),
{
    lemma_blocks(inner, outer, outer.len(), o, i);
}

proof fn lemma_blocks<S>(inner: Seq<S>, outer: Seq<S>, count: nat, o: int, i: int)
    requires
        0 <= o < count <= outer.len(),
        0 <= i < inner.len(),
    ensures
        blocks(inner, outer, count).len() == count * inner.len(),
        0 <= o * inner.len() + i < blocks(inner, outer, count).len(),
        blocks(inner, outer, count)[o * inner.len() + i] == (inner[i], Some(outer[o])),
    decreases count,
{
    let w = inner.len() as int;
    let below = (count - 1) as nat;
    lemma_blocks_len(inner, outer, below);
    assert(count * w == below * w + w) by (nonlinear_arith)
        requires
            count == below + 1,
    ;
    if o < below {
        lemma_blocks(inner, outer, below, o, i);
    } else {
        assert(o * w == below * w);
    }
}

proof fn lemma_blocks_len<S>(inner: Seq<S>, outer: Seq<S>, count: nat)
    ensures
        blocks(inner, outer, count).len() == count * inner.len(),
    decreases count,
{
    if count > 0 {
        lemma_blocks_len(inner, outer, (count - 1) as nat);
        let w = inner.len() as int;
        assert(count * w == (count - 1) * w + w) by (nonlinear_arith);
    } else {
        assert(0 * inner.len() == 0);
    }
}

/// The point reported as the worst has a residual that none exceeds, and none before it
/// reaches.
pub proof fn law_the_worst_point_is_the_largest<S: Scalar>(residuals: Seq<S>, count: nat)
    requires
        ordered::<S>(),
        count <= residuals.len(),
        forall|k: int|
            0 <= k < residuals.len() ==> (#[trigger] residuals[k]).spec_at_most(residuals[k]),
    ensures
        match worst_of(residuals, count) {
            Some(w) => {
                &&& 0 <= w < count
                &&& forall|k: int|
                    0 <= k < count ==> !residuals[w].spec_less(#[trigger] residuals[k])
                &&& forall|k: int| 0 <= k < w ==> (#[trigger] residuals[k]).spec_less(residuals[w])
            },
            None => count == 0,
        },
    decreases count,
{
    if count > 0 {
        law_the_worst_point_is_the_largest(residuals, (count - 1) as nat);
        let last = residuals[count - 1];
        assert(last.spec_at_most(last));
        match worst_of(residuals, (count - 1) as nat) {
            Some(w) => {
                assert(residuals[w].spec_at_most(residuals[w]));
                if residuals[w].spec_less(last) {
                    assert forall|k: int| 0 <= k < count implies !last.spec_less(
                        #[trigger] residuals[k],
                    ) by {
                        assert(residuals[k].spec_at_most(residuals[k]));
                        if k < count - 1 {
                            assert(!residuals[w].spec_less(residuals[k]));
                        }
                    }
                    assert forall|k: int| 0 <= k < count - 1 implies (
                    #[trigger] residuals[k]).spec_less(last) by {
                        assert(residuals[k].spec_at_most(residuals[k]));
                        assert(!residuals[w].spec_less(residuals[k]));
                    }
                }
            },
            None => {},
        }
    }
}

/// A sweep's bound is the number of steps that take the start to the stop, and a
/// billionth of it, of one step at least, more.
pub proof fn law_a_sweep_is_bounded_by_its_stop<S: Scalar>(start: S, stop: S, step: S)
    requires
        S::exact(),
        step != S::spec_zero(),
        S::spec_int(1_000_000_000) != S::spec_zero(),
    ensures
        exists|steps: S|
            {
                &&& #[trigger] start.spec_plus(step.spec_times(steps)) == stop
                &&& step_bound(start, stop, step).spec_minus(steps).spec_times(
                    S::spec_int(1_000_000_000),
                ) == if S::spec_int(1).spec_less(steps.spec_abs()) {
                    steps.spec_abs()
                } else {
                    S::spec_int(1)
                }
            },
{
    broadcast use group_sums;

    let run = stop.spec_minus(start);
    let steps = run.spec_over(step);
    let one = S::spec_int(1);
    let n = S::spec_int(1_000_000_000);
    let f = frac::<S>(1, 1_000_000_000);
    let size = at_least(steps.spec_abs(), one);
    S::laws(run, step, step);
    S::laws(steps, step, step);
    lemma_same_terms(term(0).plus(term(1).minus(term(0))), term(1), seq![start, stop]);
    assert(start.spec_plus(step.spec_times(steps)) == stop);
    let more = f.spec_times(size);
    lemma_same_terms(term(0).plus(term(1)).minus(term(0)), term(1), seq![steps, more]);
    S::laws(one, n, n);
    S::laws(f, size, n);
    S::laws(size, n, n);
    S::laws(f, n, size);
    S::laws(one, size, size);
    S::laws(size, one, one);
}

/// The value of a sweep after `k` steps: it starts at the start, moves by the step, and
/// reaches the stop where the steps come out even.
pub proof fn law_a_sweep_moves_by_its_step<S: Scalar>(start: S, stop: S, step: S, k: i64)
    requires
        S::exact(),
        0 <= k < i64::MAX,
    ensures
        swept(start, step, 0) == start,
        swept(start, step, k + 1).spec_minus(swept(start, step, k as int)) == step,
        step.spec_times(S::spec_int(k)) == stop.spec_minus(start) ==> swept(
            start,
            step,
            k as int,
        ) == stop,
{
    broadcast use group_sums;

    let one = S::spec_int(1);
    let n = S::spec_int(k);
    S::integer_laws(k);
    S::laws(step, step, step);
    S::laws(start, start, start);
    lemma_product(step, n, one);
    let p = step.spec_times(n);
    lemma_same_terms(
        term(0).plus(term(1).plus(term(2))).minus(term(0).plus(term(1))),
        term(2),
        seq![start, p, step],
    );
    lemma_same_terms(term(0).plus(term(1).minus(term(0))), term(1), seq![start, stop]);
}

} // verus!
