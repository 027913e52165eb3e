//! Time grids, and series read on them.
use vstd::prelude::*;

use crate::field::{lemma_cancel_factor, lemma_distribute, lemma_minus_after_minus};
use crate::scalar::{ordered, Scalar};
use crate::stamp::context::{frac, lower_to, no_more, ratio};

verus! {

/// The time after `k` steps of `dt` towards `tstop`; the last step is shortened to
/// land on it.
pub open spec fn grid_time<S: Scalar>(dt: S, tstop: S, k: nat) -> S
    decreases k,
{
    if k == 0 {
        S::spec_zero()
    } else {
        let t = grid_time(dt, tstop, (k - 1) as nat);
        t.spec_plus(no_more(dt, tstop.spec_minus(t)))
    }
}

/// Whether a step is still to be taken at a time.
pub open spec fn short_of_end<S: Scalar>(dt: S, tstop: S, t: S) -> bool {
    t.spec_less(tstop.spec_minus(dt.spec_times(frac(1, 1_000_000_000))))
}

/// The step grid of a fixed-step run: zero, then every step, the last one
/// shortened to land on `tstop`. A grid that would not fit in memory is cut there.
pub fn uniform_grid<S: Scalar>(dt: S, tstop: S) -> (r: Vec<S>)
    ensures
        r@.len() >= 1,
        forall|k: int| 0 <= k < r@.len() ==> #[trigger] r@[k] == grid_time(dt, tstop, k as nat),
        forall|k: int|
            0 <= k < r@.len() - 1 ==> short_of_end(dt, tstop, #[trigger] r@[k]),
        short_of_end(dt, tstop, r@.last()) ==> r@.len() == usize::MAX,
{
    let mut grid: Vec<S> = Vec::new();
    let mut t: S = S::zero();
    grid.push(t);
    let end: S = tstop.minus(dt.times(ratio(1, 1_000_000_000)));
    while grid.len() < usize::MAX && t.less(end)
        invariant
            grid@.len() >= 1,
            t == grid@.last(),
            end == tstop.spec_minus(dt.spec_times(frac(1, 1_000_000_000))),
            forall|k: int|
                0 <= k < grid@.len() ==> #[trigger] grid@[k] == grid_time(dt, tstop, k as nat),
            forall|k: int|
                0 <= k < grid@.len() - 1 ==> short_of_end(dt, tstop, #[trigger] grid@[k]),
        decreases usize::MAX - grid@.len(),
    {
        let ghost had = grid@;
        t = t.plus(lower_to(dt, tstop.minus(t)));
        grid.push(t);
        assert(grid@[had.len() as int] == grid_time(dt, tstop, had.len()));
        assert(grid@[had.len() - 1] == had.last());
    }
    grid
}

/// Whether a series of times is in order: what is above a later time is above an
/// earlier one.
pub open spec fn in_order<S: Scalar>(times: Seq<S>) -> bool {
    forall|i: int, j: int, t: S|
        #![trigger times[i].spec_less(t), times[j].spec_less(t)]
        0 <= i < j < times.len() && times[j].spec_less(t) ==> times[i].spec_less(t)
}

/// How many of the first `count` times are below `t` before the first that is not.
pub open spec fn below<S: Scalar>(times: Seq<S>, t: S, count: nat) -> nat
    decreases count,
{
    if count == 0 {
        0
    } else {
        let rest = below(times, t, (count - 1) as nat);
        if rest == count - 1 && times[count - 1].spec_less(t) {
            count
        } else {
            rest
        }
    }
}

proof fn lemma_below<S: Scalar>(times: Seq<S>, t: S, count: nat, k: nat)
    requires
        k <= count <= times.len(),
        forall|i: int| 0 <= i < k ==> #[trigger] times[i].spec_less(t),
        k < count ==> !times[k as int].spec_less(t),
    ensures
        below(times, t, count) == k,
    decreases count,
{
    if count > 0 {
        if k == count {
            lemma_below(times, t, (count - 1) as nat, (count - 1) as nat);
            assert(times[count - 1].spec_less(t));
        } else {
            lemma_below(times, t, (count - 1) as nat, k);
        }
    }
}

/// A series at a time: linear between samples, held beyond the first and the last,
/// zero without samples.
pub open spec fn sampled<S: Scalar>(times: Seq<S>, vals: Seq<S>, t: S) -> S {
    let k = below(times, t, times.len()) as int;
    if times.len() == 0 {
        S::spec_zero()
    } else if k == times.len() {
        vals.last()
    } else if !t.spec_less(times[k]) || k == 0 {
        vals[k]
    } else {
        let (t0, t1) = (times[k - 1], times[k]);
        let w = if t0.spec_less(t1) {
            t.spec_minus(t0).spec_over(t1.spec_minus(t0))
        } else {
            S::spec_zero()
        };
        vals[k - 1].spec_plus(w.spec_times(vals[k].spec_minus(vals[k - 1])))
    }
}

/// First-order-hold sample of a series at `t`.
pub fn lerp_at<S: Scalar>(times: &Vec<S>, vals: &Vec<S>, t: S) -> (r: S)
    requires
        in_order(times@),
        vals@.len() == times@.len(),
    ensures
        r == sampled(times@, vals@, t),
{
    if times.len() == 0 {
        return S::zero();
    }
    let mut lo: usize = 0;
    let mut hi: usize = times.len();
    while lo < hi
        invariant
            lo <= hi <= times@.len(),
            in_order(times@),
            forall|i: int| 0 <= i < lo ==> #[trigger] times@[i].spec_less(t),
            forall|i: int| hi <= i < times@.len() ==> !(#[trigger] times@[i].spec_less(t)),
        decreases hi - lo,
    {
        let mid: usize = lo + (hi - lo) / 2;
        if times[mid].less(t) {
            assert forall|i: int| 0 <= i < mid + 1 implies #[trigger] times@[i].spec_less(t) by {
                assert(times@[mid as int].spec_less(t));
            }
            lo = mid + 1;
        } else {
            assert forall|i: int| mid <= i < times@.len() implies !(#[trigger] times@[i].spec_less(
                t,
            )) by {
                assert(!times@[mid as int].spec_less(t));
            }
            hi = mid;
        }
    }
    proof {
        lemma_below(times@, t, times@.len(), lo as nat);
    }
    if lo == times.len() {
        return vals[vals.len() - 1];
    }
    if !t.less(times[lo]) || lo == 0 {
        return vals[lo];
    }
    let t0: S = times[lo - 1];
    let t1: S = times[lo];
    let w: S = if t0.less(t1) {
        t.minus(t0).over(t1.minus(t0))
    } else {
        S::zero()
    };
    vals[lo - 1].plus(w.times(vals[lo].minus(vals[lo - 1])))
}

/// A replayed series is exact at its breakpoints: sampled at one of its own times
/// it gives that sample back.
pub proof fn law_breakpoints_are_exact<S: Scalar>(times: Seq<S>, vals: Seq<S>, k: int)
    requires
        vals.len() == times.len(),
        0 <= k < times.len(),
        !times[k].spec_less(times[k]),
        forall|i: int| 0 <= i < k ==> #[trigger] times[i].spec_less(times[k]),
    ensures
        sampled(times, vals, times[k]) == vals[k],
{
    lemma_below(times, times[k], times.len(), k as nat);
}

/// A sampled series holds its first value before its first time and its last value
/// after its last.
pub proof fn law_series_is_held_outside<S: Scalar>(times: Seq<S>, vals: Seq<S>, t: S)
    requires
        vals.len() == times.len(),
        times.len() > 0,
    ensures
        !times[0].spec_less(t) ==> sampled(times, vals, t) == vals[0],
        (forall|i: int| 0 <= i < times.len() ==> #[trigger] times[i].spec_less(t)) ==> sampled(
            times,
            vals,
            t,
        ) == vals.last(),
{
    if !times[0].spec_less(t) {
        lemma_below(times, t, times.len(), 0);
    }
    if forall|i: int| 0 <= i < times.len() ==> #[trigger] times[i].spec_less(t) {
        lemma_below(times, t, times.len(), times.len());
    }
}

/// Between two neighbouring breakpoints a series runs along the chord: what it has
/// risen by since the earlier one is to the rise of the chord as the time since then
/// is to the time between the two.
pub proof fn law_series_runs_along_the_chord<S: Scalar>(
    times: Seq<S>,
    vals: Seq<S>,
    k: int,
    t: S,
)
    requires
        S::exact(),
        ordered::<S>(),
        vals.len() == times.len(),
        0 < k < times.len(),
        forall|i: int| 0 <= i < k ==> #[trigger] times[i].spec_less(t),
        t.spec_less(times[k]),
    ensures
        sampled(times, vals, t).spec_minus(vals[k - 1]).spec_times(
            times[k].spec_minus(times[k - 1]),
        ) == t.spec_minus(times[k - 1]).spec_times(vals[k].spec_minus(vals[k - 1])),
{
    let (t0, t1) = (times[k - 1], times[k]);
    let (v0, v1) = (vals[k - 1], vals[k]);
    assert(t0.spec_less(t));
    S::laws(t0, t, t);
    assert(t0.spec_less(t1)) by {
        assert(t0.spec_at_most(t0));
    }
    lemma_below(times, t, times.len(), k as nat);
    let span = t1.spec_minus(t0);
    S::laws(t1, t0, t0);
    S::laws(S::spec_zero(), t0, t0);
    S::laws(t0, S::spec_zero(), t0);
    assert(span != S::spec_zero());
    let w = t.spec_minus(t0).spec_over(span);
    let rise = v1.spec_minus(v0);
    let part = w.spec_times(rise);
    S::laws(v0, part, v0);
    S::laws(part, v0, v0);
    S::laws(w, rise, span);
    S::laws(rise, span, span);
    S::laws(w, span, rise);
    S::laws(t.spec_minus(t0), span, span);
}

/// A series whose samples lie on one line is reproduced between its breakpoints: the
/// line is read back at every time.
pub proof fn law_a_line_is_reproduced<S: Scalar>(
    times: Seq<S>,
    vals: Seq<S>,
    slope: S,
    offset: S,
    k: int,
    t: S,
)
    requires
        S::exact(),
        ordered::<S>(),
        vals.len() == times.len(),
        0 < k < times.len(),
        forall|i: int|
            0 <= i < times.len() ==> #[trigger] vals[i] == slope.spec_times(times[i]).spec_plus(
                offset,
            ),
        forall|i: int| 0 <= i < k ==> #[trigger] times[i].spec_less(t),
        t.spec_less(times[k]),
    ensures
        sampled(times, vals, t) == slope.spec_times(t).spec_plus(offset),
{
    law_series_runs_along_the_chord(times, vals, k, t);
    let (t0, t1) = (times[k - 1], times[k]);
    let (v0, v1) = (vals[k - 1], vals[k]);
    let r = sampled(times, vals, t);
    let span = t1.spec_minus(t0);
    assert(t0.spec_less(t));
    S::laws(t1, t0, t0);
    S::laws(S::spec_zero(), t0, t0);
    S::laws(t0, S::spec_zero(), t0);
    assert(span != S::spec_zero());
    lemma_rise(slope, offset, t0, t1);
    lemma_rise(slope, offset, t0, t);
    let line = slope.spec_times(t).spec_plus(offset);
    S::laws(t.spec_minus(t0), slope, span);
    S::laws(slope, t.spec_minus(t0), span);
    lemma_cancel_factor(r.spec_minus(v0), line.spec_minus(v0), span);
    S::laws(r, v0, v0);
    S::laws(line, v0, v0);
}

/// The rise of a line is its slope times the run.
proof fn lemma_rise<S: Scalar>(slope: S, offset: S, from: S, to: S)
    requires
        S::exact(),
    ensures
        slope.spec_times(to).spec_plus(offset).spec_minus(
            slope.spec_times(from).spec_plus(offset),
        ) == slope.spec_times(to.spec_minus(from)),
{
    let (p, q) = (slope.spec_times(to), slope.spec_times(from));
    S::laws(p, offset, offset);
    S::laws(q, offset, offset);
    S::laws(offset, q, q);
    lemma_minus_after_minus(p.spec_plus(offset), offset, q);
    lemma_distribute(to, from, slope);
    S::laws(slope, to, to);
    S::laws(slope, from, from);
    S::laws(slope, to.spec_minus(from), from);
}

/// The node voltages of a run, by node, over its accepted times.
#[derive(Debug)]
pub struct Waveforms<S> {
    pub time: Vec<S>,
    pub node_voltages: Vec<Vec<S>>,
}

impl<S: Scalar> Waveforms<S> {
    /// Times are in order and every node has a value at each.
    pub open spec fn wf(&self) -> bool {
        &&& in_order(self.time@)
        &&& forall|n: int|
            0 <= n < self.node_voltages@.len() ==> (#[trigger] self.node_voltages@[n])@.len()
                == self.time@.len()
    }
}

/// A series on another grid.
pub open spec fn resampled<S: Scalar>(times: Seq<S>, vals: Seq<S>, grid: Seq<S>) -> Seq<S> {
    Seq::new(grid.len(), |k: int| sampled(times, vals, grid[k]))
}

/// One node of a run on a grid: what a replay consumer reads.
pub fn resample<S: Scalar>(wf: &Waveforms<S>, node: usize, grid: &Vec<S>) -> (r: Vec<S>)
    requires
        wf.wf(),
        node < wf.node_voltages@.len(),
    ensures
        r@ == resampled(wf.time@, wf.node_voltages@[node as int]@, grid@),
{
    let mut out: Vec<S> = Vec::new();
    let mut k: usize = 0;
    while k < grid.len()
        invariant
            k <= grid@.len(),
            wf.wf(),
            node < wf.node_voltages@.len(),
            out@ == resampled(wf.time@, wf.node_voltages@[node as int]@, grid@).take(k as int),
        decreases grid@.len() - k,
    {
        let ghost all = resampled(wf.time@, wf.node_voltages@[node as int]@, grid@);
        out.push(lerp_at(&wf.time, &wf.node_voltages[node], grid[k]));
        assert(all.take(k + 1) =~= all.take(k as int).push(all[k as int]));
        k = k + 1;
    }
    assert(out@ =~= resampled(wf.time@, wf.node_voltages@[node as int]@, grid@));
    out
}

/// The same value at every point of a grid.
pub fn constant_train<S: Scalar>(v: S, n: usize) -> (r: Vec<S>)
    ensures
        r@ == Seq::new(n as nat, |k: int| v),
{
    let mut out: Vec<S> = Vec::new();
    let mut k: usize = 0;
    while k < n
        invariant
            k <= n,
            out@ == Seq::new(k as nat, |j: int| v),
        decreases n - k,
    {
        out.push(v);
        assert(out@ =~= Seq::new((k + 1) as nat, |j: int| v));
        k = k + 1;
    }
    out
}

/// How far two iterates of a train are apart.
#[derive(Clone, Copy, Debug)]
pub enum Residual<S> {
    /// Measured.
    Volts(S),
    /// Beyond any number: a solve died, or a sample is not a number.
    Infinite,
    /// Never measured.
    Unknown,
}

/// Whether a number equals itself, which only an undefined one does not.
pub open spec fn defined<S: Scalar>(v: S) -> bool {
    v.spec_at_most(v)
}

/// The smaller of a distance and a number, which is passed over where undefined;
/// no distance is beyond any number.
pub open spec fn nearer<S: Scalar>(best: Option<S>, d: S) -> Option<S> {
    if !defined(d) {
        best
    } else {
        match best {
            None => Some(d),
            Some(b) => if d.spec_less(b) {
                Some(d)
            } else {
                Some(b)
            },
        }
    }
}

fn keep_nearer<S: Scalar>(best: Option<S>, d: S) -> (r: Option<S>)
    ensures
        r == nearer(best, d),
{
    if !d.at_most(d) {
        best
    } else {
        match best {
            None => Some(d),
            Some(b) => if d.less(b) {
                Some(d)
            } else {
                Some(b)
            },
        }
    }
}

/// The distance of a sample from the nearest of the samples `lo..hi` of the other
/// iterate.
pub open spec fn nearest<S: Scalar>(v: S, b: Seq<S>, lo: int, hi: int) -> Option<S>
    decreases hi - lo,
{
    if hi <= lo {
        None
    } else {
        nearer(nearest(v, b, lo, hi - 1), v.spec_minus(b[hi - 1]).spec_abs())
    }
}

/// The larger of two residuals.
pub open spec fn worse<S: Scalar>(worst: Residual<S>, best: Option<S>) -> Residual<S> {
    match (worst, best) {
        (Residual::Volts(w), Some(b)) => Residual::Volts(
            if w.spec_less(b) {
                b
            } else {
                w
            },
        ),
        (Residual::Volts(_), None) => Residual::Infinite,
        (other, _) => other,
    }
}

pub open spec fn first_neighbour(i: int) -> int {
    if i == 0 {
        0
    } else {
        i - 1
    }
}

pub open spec fn past_neighbour(i: int, n: int) -> int {
    if i + 1 < n {
        i + 2
    } else {
        n
    }
}

/// The largest, over the first `count` of `n` samples, of the distance to the
/// nearest of the same and the adjoining samples of the other iterate.
pub open spec fn shifted<S: Scalar>(a: Seq<S>, b: Seq<S>, n: nat, count: nat) -> Residual<S>
    decreases count,
{
    if count == 0 {
        Residual::Volts(S::spec_zero())
    } else {
        let i = count - 1;
        worse(
            shifted(a, b, n, (count - 1) as nat),
            nearest(a[i], b, first_neighbour(i), past_neighbour(i, n as int)),
        )
    }
}

pub open spec fn shorter(a: nat, b: nat) -> nat {
    if a <= b {
        a
    } else {
        b
    }
}

/// Residual between two iterates of a train that tolerates a shift of one grid
/// step: a spike whose timing moves by one cell is no divergence.
pub fn shifted_residual<S: Scalar>(a: &Vec<S>, b: &Vec<S>) -> (r: Residual<S>)
    ensures
        r == ({
            let n = shorter(a@.len(), b@.len());
            shifted(a@, b@, n, n)
        }),
        r !is Unknown,
{
    let n: usize = if a.len() <= b.len() {
        a.len()
    } else {
        b.len()
    };
    let mut worst: Residual<S> = Residual::Volts(S::zero());
    let mut i: usize = 0;
    while i < n
        invariant
            i <= n,
            n <= a@.len(),
            n <= b@.len(),
            worst == shifted(a@, b@, n as nat, i as nat),
            worst !is Unknown,
        decreases n - i,
    {
        let lo: usize = if i == 0 {
            0
        } else {
            i - 1
        };
        let hi: usize = if n - i > 1 {
            i + 2
        } else {
            n
        };
        let mut best: Option<S> = None;
        let mut j: usize = lo;
        while j < hi
            invariant
                lo <= j <= hi <= n,
                i < n,
                n <= a@.len(),
                n <= b@.len(),
                best == nearest(a@[i as int], b@, lo as int, j as int),
            decreases hi - j,
        {
            best = keep_nearer(best, a[i].minus(b[j]).abs());
            j = j + 1;
        }
        worst = match worst {
            Residual::Volts(w) => match best {
                Some(d) => Residual::Volts(
                    if w.less(d) {
                        d
                    } else {
                        w
                    },
                ),
                None => Residual::Infinite,
            },
            other => other,
        };
        i = i + 1;
    }
    worst
}

proof fn lemma_nearest_own<S: Scalar>(v: S, b: Seq<S>, lo: int, hi: int, j: int)
    requires
        S::exact(),
        lo <= j < hi,
        b[j] == v,
    ensures
        nearest(v, b, lo, hi) == Some(S::spec_zero()),
    decreases hi - lo,
{
    S::laws(v, v, v);
    S::laws(S::spec_zero(), v, v);
    S::laws(v, S::spec_zero(), v);
    assert(v.spec_minus(v) == S::spec_zero());
    if j == hi - 1 {
        lemma_nearest_nonnegative(v, b, lo, hi - 1);
    } else {
        lemma_nearest_own(v, b, lo, hi - 1, j);
        let x = v.spec_minus(b[hi - 1]);
        S::laws(x, x, x);
    }
}

proof fn lemma_nearest_nonnegative<S: Scalar>(v: S, b: Seq<S>, lo: int, hi: int)
    requires
        S::exact(),
    ensures
        match nearest(v, b, lo, hi) {
            Some(d) => S::spec_zero().spec_less(d) || d == S::spec_zero(),
            None => true,
        },
    decreases hi - lo,
{
    if hi > lo {
        lemma_nearest_nonnegative(v, b, lo, hi - 1);
        let x = v.spec_minus(b[hi - 1]);
        S::laws(x, x, x);
    }
}

/// In exact arithmetic a train compared with itself has no residual.
pub proof fn law_no_residual_against_itself<S: Scalar>(a: Seq<S>, count: nat)
    requires
        S::exact(),
        count <= a.len(),
    ensures
        shifted(a, a, a.len(), count) == Residual::Volts(S::spec_zero()),
    decreases count,
{
    if count > 0 {
        law_no_residual_against_itself(a, (count - 1) as nat);
        let i = count - 1;
        lemma_nearest_own(
            a[i],
            a,
            first_neighbour(i),
            past_neighbour(i, a.len() as int),
            i,
        );
        S::laws(S::spec_zero(), a[i], a[i]);
    }
}

/// The nearest of a range of samples is one of them, and none of them is nearer.
proof fn lemma_nearest<S: Scalar>(v: S, b: Seq<S>, lo: int, hi: int)
    requires
        ordered::<S>(),
    ensures
        match nearest(v, b, lo, hi) {
            Some(d) => {
                &&& d.spec_at_most(d)
                &&& exists|j: int| lo <= j < hi && d == (#[trigger] apart(v, b, j))
                &&& forall|j: int|
                    lo <= j < hi && apart(v, b, j).spec_at_most(apart(v, b, j)) ==> !(
                    #[trigger] apart(v, b, j)).spec_less(d)
            },
            None => forall|j: int|
                lo <= j < hi ==> !(#[trigger] apart(v, b, j)).spec_at_most(apart(v, b, j)),
        },
    decreases hi - lo,
{
    if hi > lo {
        lemma_nearest(v, b, lo, hi - 1);
        let d = apart(v, b, hi - 1);
        let best = nearest(v, b, lo, hi - 1);
        if d.spec_at_most(d) {
            match best {
                Some(e) => {
                    if d.spec_less(e) {
                        assert forall|j: int|
                            lo <= j < hi && apart(v, b, j).spec_at_most(
                                apart(v, b, j),
                            ) implies !(#[trigger] apart(v, b, j)).spec_less(d) by {
                            if j < hi - 1 && apart(v, b, j).spec_less(d) {
                                assert(apart(v, b, j).spec_less(e));
                            }
                        }
                    }
                },
                None => {},
            }
        }
    }
}

/// The distance of a number from a sample.
pub open spec fn apart<S: Scalar>(v: S, b: Seq<S>, j: int) -> S {
    v.spec_minus(b[j]).spec_abs()
}

/// Whether some of `n` samples, at most one step from `i`, is no farther than `w`.
pub open spec fn matched<S: Scalar>(w: S, v: S, b: Seq<S>, i: int, n: int) -> bool {
    exists|j: int|
        i - 1 <= j <= i + 1 && 0 <= j < n && !w.spec_less(#[trigger] apart(v, b, j)) && apart(
            v,
            b,
            j,
        ).spec_at_most(apart(v, b, j))
}

/// Whether none of `n` samples, at most one step from `i`, is nearer than `w`.
pub open spec fn clear_by<S: Scalar>(w: S, v: S, b: Seq<S>, i: int, n: int) -> bool {
    forall|j: int|
        i - 1 <= j <= i + 1 && 0 <= j < n && apart(v, b, j).spec_at_most(apart(v, b, j))
            ==> !(#[trigger] apart(v, b, j)).spec_less(w)
}

/// Whether none of `n` samples, at most one step from `i`, is at a defined distance.
pub open spec fn incomparable<S: Scalar>(v: S, b: Seq<S>, i: int, n: int) -> bool {
    forall|j: int|
        i - 1 <= j <= i + 1 && 0 <= j < n ==> !(#[trigger] apart(v, b, j)).spec_at_most(
            apart(v, b, j),
        )
}

/// What a measured residual says of two trains over their first `count` samples.
proof fn lemma_shifted<S: Scalar>(a: Seq<S>, b: Seq<S>, n: nat, count: nat)
    requires
        ordered::<S>(),
        count <= n <= a.len(),
        n <= b.len(),
    ensures
        match shifted(a, b, n, count) {
            Residual::Volts(w) => {
                &&& w.spec_at_most(w)
                &&& forall|i: int|
                    0 <= i < count ==> #[trigger] matched(w, a[i], b, i, n as int)
                &&& w == S::spec_zero() || exists|i: int|
                    0 <= i < count && #[trigger] clear_by(w, a[i], b, i, n as int)
            },
            Residual::Infinite => exists|i: int|
                0 <= i < count && #[trigger] incomparable(a[i], b, i, n as int),
            Residual::Unknown => false,
        },
    decreases count,
{
    if count > 0 {
        let c = (count - 1) as nat;
        let i = count - 1;
        lemma_shifted(a, b, n, c);
        let (lo, hi) = (first_neighbour(i), past_neighbour(i, n as int));
        lemma_nearest(a[i], b, lo, hi);
        match (shifted(a, b, n, c), nearest(a[i], b, lo, hi)) {
            (Residual::Volts(w), Some(d)) => {
                let m = if w.spec_less(d) {
                    d
                } else {
                    w
                };
                assert(shifted(a, b, n, count) == Residual::Volts(m));
                assert forall|k: int| 0 <= k < count implies #[trigger] matched(
                    m,
                    a[k],
                    b,
                    k,
                    n as int,
                ) by {
                    if k == i {
                        let j = choose|j: int| lo <= j < hi && d == (#[trigger] apart(a[i], b, j));
                        assert(!m.spec_less(apart(a[k], b, j)));
                    } else {
                        assert(matched(w, a[k], b, k, n as int));
                        let j = choose|j: int|
                            k - 1 <= j <= k + 1 && 0 <= j < n && !w.spec_less(
                                #[trigger] apart(a[k], b, j),
                            ) && apart(a[k], b, j).spec_at_most(apart(a[k], b, j));
                        assert(!m.spec_less(apart(a[k], b, j)));
                    }
                }
                if w.spec_less(d) {
                    assert(clear_by(m, a[i], b, i, n as int));
                } else if w != S::spec_zero() {
                    let k = choose|k: int| 0 <= k < c && #[trigger] clear_by(w, a[k], b, k, n as int);
                    assert(clear_by(m, a[k], b, k, n as int));
                }
            },
            (Residual::Volts(w), None) => {
                assert(incomparable(a[i], b, i, n as int));
            },
            (Residual::Infinite, _) => {
                let k = choose|k: int| 0 <= k < c && #[trigger] incomparable(a[k], b, k, n as int);
                assert(incomparable(a[k], b, k, n as int));
            },
            _ => {},
        }
    }
}

/// A residual tolerates a shift of one grid step and no more. Where it is a number,
/// every sample of one train has a sample of the other at most one step away that is
/// no farther than it; and unless it is zero some sample has none nearer within one
/// step. It is beyond any number only where a sample has no defined distance to any
/// sample within one step. Samples beyond the end of the shorter train are not read.
pub proof fn law_residual_tolerates_one_step<S: Scalar>(a: Seq<S>, b: Seq<S>, n: nat)
    requires
        ordered::<S>(),
        n <= a.len(),
        n <= b.len(),
        n == a.len() || n == b.len(),
    ensures
        match shifted(a, b, shorter(a.len(), b.len()), shorter(a.len(), b.len())) {
            Residual::Volts(w) => {
                &&& forall|i: int| 0 <= i < n ==> #[trigger] matched(w, a[i], b, i, n as int)
                &&& w == S::spec_zero() || exists|i: int|
                    0 <= i < n && #[trigger] clear_by(w, a[i], b, i, n as int)
            },
            Residual::Infinite => exists|i: int|
                0 <= i < n && #[trigger] incomparable(a[i], b, i, n as int),
            Residual::Unknown => false,
        },
{
    lemma_shifted(a, b, n, n);
}

/// A fixed-step grid starts at zero and steps by `dt` as long as more than a step is
/// left; the step after that lands on the end.
pub proof fn law_the_grid_lands_on_its_end<S: Scalar>(dt: S, tstop: S, k: nat)
    requires
        S::exact(),
    ensures
        grid_time(dt, tstop, 0) == S::spec_zero(),
        dt.spec_less(tstop.spec_minus(grid_time(dt, tstop, k))) ==> grid_time(
            dt,
            tstop,
            k + 1,
        ).spec_minus(grid_time(dt, tstop, k)) == dt,
        !dt.spec_less(tstop.spec_minus(grid_time(dt, tstop, k))) ==> grid_time(
            dt,
            tstop,
            k + 1,
        ) == tstop,
{
    let t = grid_time(dt, tstop, k);
    S::laws(tstop, t, t);
    S::laws(t, tstop.spec_minus(t), t);
    S::laws(t, dt, dt);
    S::laws(dt, t, t);
    assert(grid_time(dt, tstop, (k + 1 - 1) as nat) == t);
}

/// Nothing is left to do once the end is a billionth of a step away.
pub proof fn law_the_end_is_met_to_a_billionth<S: Scalar>(dt: S, tstop: S, t: S)
    requires
        S::exact(),
        S::spec_int(1_000_000_000) != S::spec_zero(),
    ensures
        exists|slack: S|
            {
                &&& #[trigger] slack.spec_times(S::spec_int(1_000_000_000)) == dt
                &&& short_of_end(dt, tstop, t) == t.spec_less(tstop.spec_minus(slack))
            },
{
    let n = S::spec_int(1_000_000_000);
    let one = S::spec_int(1);
    let f = frac::<S>(1, 1_000_000_000);
    S::laws(one, n, n);
    S::laws(dt, f, n);
    S::laws(dt, one, one);
    assert(dt.spec_times(f).spec_times(n) == dt);
}

/// A series read on its own times is itself, where those rise.
pub proof fn law_a_series_on_its_own_grid_is_kept<S: Scalar>(times: Seq<S>, vals: Seq<S>)
    requires
        vals.len() == times.len(),
        forall|i: int, j: int|
            0 <= i < j < times.len() ==> (#[trigger] times[i]).spec_less(#[trigger] times[j]),
        forall|i: int| 0 <= i < times.len() ==> !(#[trigger] times[i]).spec_less(times[i]),
    ensures
        resampled(times, vals, times) == vals,
{
    let out = resampled(times, vals, times);
    assert forall|k: int| 0 <= k < vals.len() implies out[k] == vals[k] by {
        assert forall|i: int| 0 <= i < k implies #[trigger] times[i].spec_less(times[k]) by {}
        law_breakpoints_are_exact(times, vals, k);
    }
    assert(out =~= vals);
}

} // verus!
