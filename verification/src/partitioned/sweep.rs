//! The exchange between islands.
//!
//! In a sweep every island reads the frozen buffer and computes the nodes it owns;
//! then all owned values are scattered into the next buffer at once. No island
//! reads what another computes in the same sweep, so the order in which islands
//! run cannot show in the result.
use vstd::prelude::*;

use crate::circuit::NodeId;
use crate::orchestrate::balance::{BalanceReport, RailChannel};
use crate::orchestrate::grid::{grid_time, short_of_end};
use crate::orchestrate::tear::RailTear;
use crate::scalar::{ordered, Scalar};
use crate::stamp::context::{at_least, frac, lower_to, no_more, raise, ratio};
use crate::text::{decimal, decimal_digits};

verus! {

/// How many sweeps a coupling may take.
pub const COUPLING_SWEEP_CAP: usize = 16;

/// A node's change against its tolerance.
pub open spec fn weighted<S: Scalar>(was: S, now: S, reltol: S, vntol: S) -> S {
    now.spec_minus(was).spec_abs().spec_over(
        reltol.spec_times(at_least(now.spec_abs(), was.spec_abs())).spec_plus(vntol),
    )
}

/// The buffer with the first `count` writes.
pub open spec fn scattered<S>(read: Seq<S>, writes: Seq<(NodeId, S)>, count: nat) -> Seq<S>
    decreases count,
{
    if count == 0 {
        read
    } else {
        let w = writes[count - 1];
        scattered(read, writes, (count - 1) as nat).update(w.0.0 as int, w.1)
    }
}

/// The largest weighted change among the first `count` writes and its node: the
/// first node where several change as much.
pub open spec fn worst_change<S: Scalar>(
    read: Seq<S>,
    writes: Seq<(NodeId, S)>,
    reltol: S,
    vntol: S,
    count: nat,
) -> (S, NodeId)
    decreases count,
{
    if count == 0 {
        (S::spec_zero(), NodeId(0))
    } else {
        let so_far = worst_change(read, writes, reltol, vntol, (count - 1) as nat);
        let w = writes[count - 1];
        let change = weighted(read[w.0.0 as int], w.1, reltol, vntol);
        if so_far.0.spec_less(change) {
            (change, w.0)
        } else {
            so_far
        }
    }
}

/// The next generation of the buffer, and its largest weighted change.
#[derive(Debug)]
pub struct Sweep<S> {
    pub buf: Vec<S>,
    pub worst: S,
    pub node: NodeId,
}

/// Scatter owned values over the buffer that was read. Slots that nobody writes
/// carry over.
pub fn scatter<S: Scalar>(
    read: &Vec<S>,
    writes: &Vec<(NodeId, S)>,
    reltol: S,
    vntol: S,
) -> (r: Sweep<S>)
    requires
        forall|k: int| 0 <= k < writes@.len() ==> (#[trigger] writes@[k]).0.0 < read@.len(),
    ensures
        r.buf@ == scattered(read@, writes@, writes@.len()),
        (r.worst, r.node) == worst_change(read@, writes@, reltol, vntol, writes@.len()),
{
    let mut buf: Vec<S> = crate::duplicate::copied_list(read);
    let mut worst: S = S::zero();
    let mut node = NodeId::ground();
    let mut k: usize = 0;
    while k < writes.len()
        invariant
            k <= writes@.len(),
            forall|k: int| 0 <= k < writes@.len() ==> (#[trigger] writes@[k]).0.0 < read@.len(),
            buf@.len() == read@.len(),
            buf@ == scattered(read@, writes@, k as nat),
            (worst, node) == worst_change(read@, writes@, reltol, vntol, k as nat),
        decreases writes@.len() - k,
    {
        let (n, now) = writes[k];
        let was = read[n.0 as usize];
        let scale = reltol.times(raise(now.abs(), was.abs())).plus(vntol);
        let change = now.minus(was).abs().over(scale);
        if worst.less(change) {
            worst = change;
            node = n;
        }
        buf[n.0 as usize] = now;
        k = k + 1;
    }
    Sweep { buf, worst, node }
}

/// Whether no node is written twice.
pub open spec fn distinct_nodes<S>(writes: Seq<(NodeId, S)>) -> bool {
    forall|i: int, j: int|
        #![trigger writes[i], writes[j]]
        0 <= i < j < writes.len() ==> writes[i].0 != writes[j].0
}

proof fn lemma_scattered<S>(read: Seq<S>, writes: Seq<(NodeId, S)>, count: nat, n: int)
    requires
        count <= writes.len(),
        distinct_nodes(writes),
        0 <= n < read.len(),
        forall|k: int| 0 <= k < writes.len() ==> (#[trigger] writes[k]).0.0 < read.len(),
    ensures
        scattered(read, writes, count).len() == read.len(),
        forall|k: int|
            0 <= k < count && (#[trigger] writes[k]).0.0 == n ==> scattered(
                read,
                writes,
                count,
            )[n] == writes[k].1,
        (forall|k: int| 0 <= k < count ==> (#[trigger] writes[k]).0.0 != n) ==> scattered(
            read,
            writes,
            count,
        )[n] == read[n],
    decreases count,
{
    if count > 0 {
        lemma_scattered(read, writes, (count - 1) as nat, n);
        let last = writes[count - 1];
        if last.0.0 == n {
            assert forall|k: int| 0 <= k < count && (#[trigger] writes[k]).0.0 == n implies k
                == count - 1 by {
                if k < count - 1 {
                    assert(writes[k].0 != writes[count - 1].0);
                }
            }
        }
    }
}

/// A sweep does not depend on the order in which islands deliver: two deliveries of
/// the same values give the same buffer, where every node has one writer.
pub proof fn law_sweep_is_order_free<S: Scalar>(
    read: Seq<S>,
    a: Seq<(NodeId, S)>,
    b: Seq<(NodeId, S)>,
)
    requires
        distinct_nodes(a),
        distinct_nodes(b),
        forall|k: int| 0 <= k < a.len() ==> b.contains(#[trigger] a[k]),
        forall|k: int| 0 <= k < b.len() ==> a.contains(#[trigger] b[k]),
        forall|k: int| 0 <= k < a.len() ==> (#[trigger] a[k]).0.0 < read.len(),
    ensures
        scattered(read, a, a.len()) == scattered(read, b, b.len()),
{
    assert forall|k: int| 0 <= k < b.len() implies (#[trigger] b[k]).0.0 < read.len() by {
        let j = choose|j: int| 0 <= j < a.len() && a[j] == b[k];
        assert(a[j].0.0 < read.len());
    }
    let x = scattered(read, a, a.len());
    let y = scattered(read, b, b.len());
    if read.len() > 0 {
        assert forall|n: int| 0 <= n < read.len() implies x[n] == y[n] by {
            lemma_scattered(read, a, a.len(), n);
            lemma_scattered(read, b, b.len(), n);
            if exists|k: int| 0 <= k < a.len() && (#[trigger] a[k]).0.0 == n {
                let k = choose|k: int| 0 <= k < a.len() && (#[trigger] a[k]).0.0 == n;
                assert(b.contains(a[k]));
                let j = choose|j: int| 0 <= j < b.len() && b[j] == a[k];
                assert(b[j].0.0 == n);
            } else {
                assert forall|j: int| 0 <= j < b.len() implies (#[trigger] b[j]).0.0 != n by {
                    assert(a.contains(b[j]));
                    let k = choose|k: int| 0 <= k < a.len() && a[k] == b[j];
                    assert(a[k].0.0 != n);
                }
            }
        }
        lemma_scattered(read, a, a.len(), 0);
        lemma_scattered(read, b, b.len(), 0);
        assert(x =~= y);
    } else {
        if a.len() > 0 {
            assert(a[0].0.0 < read.len());
        }
        if b.len() > 0 {
            assert(b[0].0.0 < read.len());
        }
    }
}

/// What to do after a sweep.
#[derive(Clone, Copy, Debug, PartialEq, Eq, Structural)]
pub enum AfterSweep {
    /// The exchange has settled.
    Settled,
    /// Sweep again, without advancing island state.
    Again,
    /// The cap is reached and the exchange still moves.
    Stalled,
}

/// After the first sweep only islands that feed each other sweep again. A later
/// sweep settles once no node moved by more than its tolerance.
pub open spec fn after_sweep<S: Scalar>(coupled: bool, sweeps: nat, worst: S) -> AfterSweep {
    if sweeps <= 1 {
        if coupled {
            AfterSweep::Again
        } else {
            AfterSweep::Settled
        }
    } else if worst.spec_at_most(S::spec_int(1)) {
        AfterSweep::Settled
    } else if sweeps >= COUPLING_SWEEP_CAP {
        AfterSweep::Stalled
    } else {
        AfterSweep::Again
    }
}

/// What to do after `sweeps` sweeps of a step, the first of which advanced the
/// islands; `worst` is the largest weighted change of the last one.
pub fn relax_step<S: Scalar>(coupled: bool, sweeps: usize, worst: S) -> (r: AfterSweep)
    ensures
        r == after_sweep(coupled, sweeps as nat, worst),
{
    if sweeps <= 1 {
        return if coupled {
            AfterSweep::Again
        } else {
            AfterSweep::Settled
        };
    }
    if worst.at_most(S::from_int(1)) {
        AfterSweep::Settled
    } else if sweeps >= COUPLING_SWEEP_CAP {
        AfterSweep::Stalled
    } else {
        AfterSweep::Again
    }
}

/// A step takes at most sixteen sweeps, and is never accepted while a node of
/// coupled islands still moves by more than its tolerance.
pub proof fn law_relaxation_ends<S: Scalar>(coupled: bool, sweeps: nat, worst: S)
    ensures
        after_sweep(coupled, sweeps, worst) is Again ==> sweeps < COUPLING_SWEEP_CAP,
        coupled && after_sweep(coupled, sweeps, worst) is Settled ==> worst.spec_at_most(
            S::spec_int(1),
        ) && sweeps > 1,
        !coupled && sweeps <= 1 ==> after_sweep(coupled, sweeps, worst) is Settled,
{
}

/// What a stalled exchange is refused with.
pub open spec fn stalled_message(time: Seq<char>, worst: Seq<char>, node: NodeId) -> Seq<char> {
    "inter-island coupling failed to relax within "@ + decimal_digits(COUPLING_SWEEP_CAP as nat)
        + " sweeps at t="@ + time + ": weighted boundary change "@ + worst
        + " (tolerance 1.0) still moving at node "@ + decimal_digits(node.0 as nat)
        + " \u{2014} the cut is stronger than the partitioner believed; refusing the partitioned step"@
}

/// What a stalled exchange is refused with, given the texts of the time and of the
/// largest change.
pub fn stalled_text(time: &str, worst: &str, node: NodeId) -> (r: String)
    ensures
        r@ == stalled_message(time@, worst@, node),
{
    let mut text = String::from_str("inter-island coupling failed to relax within ");
    text.append(decimal(COUPLING_SWEEP_CAP).as_str());
    text.append(" sweeps at t=");
    text.append(time);
    text.append(": weighted boundary change ");
    text.append(worst);
    text.append(" (tolerance 1.0) still moving at node ");
    text.append(decimal(node.0 as usize).as_str());
    text.append(
        " \u{2014} the cut is stronger than the partitioner believed; refusing the partitioned step",
    );
    text
}

/// The first failure in island order.
pub open spec fn lowest_failure(failures: Seq<Option<String>>, from: int) -> Option<int>
    decreases failures.len() - from,
{
    if from >= failures.len() {
        None
    } else if failures[from] is Some {
        Some(from)
    } else {
        lowest_failure(failures, from + 1)
    }
}

/// The failure of the first island that failed, whichever ran first.
pub fn first_failure(failures: &Vec<Option<String>>) -> (r: Option<usize>)
    ensures
        match lowest_failure(failures@, 0) {
            Some(k) => r matches Some(i) && i == k && i < failures@.len() && failures@[i as int] is Some,
            None => r is None && forall|i: int| 0 <= i < failures@.len() ==> #[trigger] failures@[i] is None,
        },
{
    let mut k: usize = 0;
    while k < failures.len()
        invariant
            k <= failures@.len(),
            lowest_failure(failures@, 0) == lowest_failure(failures@, k as int),
            forall|i: int| 0 <= i < k ==> #[trigger] failures@[i] is None,
        decreases failures@.len() - k,
    {
        if failures[k].is_some() {
            return Some(k);
        }
        k = k + 1;
    }
    None
}

/// One step of a fixed-step run.
#[derive(Clone, Copy, Debug)]
pub struct Step<S> {
    pub h: S,
    /// The time at its end.
    pub until: S,
}

/// The step after time `t`: of the fixed size, cut short at the stop time; none
/// within a billionth of a step of the stop time.
pub open spec fn step_after<S: Scalar>(t: S, dt: S, tstop: S) -> Option<Step<S>> {
    let eps = dt.spec_times(frac::<S>(1, 1_000_000_000));
    if t.spec_less(tstop.spec_minus(eps)) {
        let h = no_more(dt, tstop.spec_minus(t));
        Some(Step { h, until: t.spec_plus(h) })
    } else {
        None
    }
}

pub fn next_step<S: Scalar>(t: S, dt: S, tstop: S) -> (r: Option<Step<S>>)
    ensures
        r == step_after(t, dt, tstop),
{
    let eps = dt.times(ratio(1, 1_000_000_000));
    if t.less(tstop.minus(eps)) {
        let h = lower_to(dt, tstop.minus(t));
        Some(Step { h, until: t.plus(h) })
    } else {
        None
    }
}

/// The rails, among the first `count`, that a rail feeds, with their shunts.
pub open spec fn children<S>(tears: Seq<RailTear<S>>, rail: NodeId, count: nat) -> Seq<(usize, S)>
    decreases count,
{
    if count == 0 {
        Seq::empty()
    } else {
        let rest = children(tears, rail, (count - 1) as nat);
        if tears[count - 1].feed == rail {
            rest.push(((count - 1) as usize, tears[count - 1].r_shunt))
        } else {
            rest
        }
    }
}

/// The rails that a rail feeds, with their shunts: the current through those is in
/// no block.
pub fn fed_rails<S: Scalar>(tears: &Vec<RailTear<S>>, rail: NodeId) -> (r: Vec<(usize, S)>)
    ensures
        r@ == children(tears@, rail, tears@.len()),
        forall|c: int| 0 <= c < r@.len() ==> (#[trigger] r@[c]).0 < tears@.len(),
{
    let mut out: Vec<(usize, S)> = Vec::new();
    let mut k: usize = 0;
    while k < tears.len()
        invariant
            k <= tears@.len(),
            out@ == children(tears@, rail, k as nat),
            forall|c: int| 0 <= c < out@.len() ==> (#[trigger] out@[c]).0 < k,
        decreases tears@.len() - k,
    {
        if tears[k].feed == rail {
            out.push((k, tears[k].r_shunt));
        }
        k = k + 1;
    }
    out
}

/// Whether a channel is that of a torn rail, with the rails it feeds.
pub open spec fn is_channel<S>(tears: Seq<RailTear<S>>, k: int, ch: RailChannel<S>) -> bool {
    &&& ch.rail == tears[k].rail
    &&& ch.shunt_ohms == tears[k].r_shunt
    &&& ch.children@ == children(tears, tears[k].rail, tears.len())
}

/// The balance channel of every torn rail.
pub fn rail_channels<S: Scalar>(tears: &Vec<RailTear<S>>) -> (r: Vec<RailChannel<S>>)
    ensures
        r@.len() == tears@.len(),
        forall|k: int| 0 <= k < tears@.len() ==> is_channel(tears@, k, #[trigger] r@[k]),
        forall|k: int, c: int|
            0 <= k < tears@.len() && 0 <= c < r@[k].children@.len() ==> (
            #[trigger] r@[k].children@[c]).0 < tears@.len(),
{
    let mut out: Vec<RailChannel<S>> = Vec::new();
    let mut k: usize = 0;
    while k < tears.len()
        invariant
            k <= tears@.len(),
            out@.len() == k,
            forall|j: int| 0 <= j < k ==> is_channel(tears@, j, #[trigger] out@[j]),
            forall|j: int, c: int|
                0 <= j < k && 0 <= c < out@[j].children@.len() ==> (
                #[trigger] out@[j].children@[c]).0 < tears@.len(),
        decreases tears@.len() - k,
    {
        let kids = fed_rails(tears, tears[k].rail);
        let ghost before = out@;
        out.push(
            RailChannel { rail: tears[k].rail, shunt_ohms: tears[k].r_shunt, children: kids },
        );
        proof {
            assert forall|j: int, c: int|
                0 <= j < k + 1 && 0 <= c < out@[j].children@.len() implies (
            #[trigger] out@[j].children@[c]).0 < tears@.len() by {
                if j < k {
                    assert(out@[j] == before[j]);
                    assert(before[j].children@[c].0 < tears@.len());
                } else {
                    assert(kids@[c].0 < tears@.len());
                }
            }
        }
        k = k + 1;
    }
    out
}

/// Refuse a balance that ran out of passes; an unbalanced rail is never streamed.
pub fn ensure_balanced<S: Scalar>(report: &BalanceReport<S>) -> (r: Result<(), String>)
    ensures
        match r {
            Ok(()) => report.converged,
            Err(text) => !report.converged && text@ == "rail balance did not converge in "@
                + decimal_digits(report.outer_passes as nat) + " passes"@,
        },
{
    if report.converged {
        return Ok(());
    }
    let mut text = String::from_str("rail balance did not converge in ");
    text.append(decimal(report.outer_passes).as_str());
    text.append(" passes");
    Err(text)
}

/// A weighted change is the change in units of what is allowed: a part of the larger
/// value and the voltage floor.
pub proof fn law_a_change_is_weighed_by_its_allowance<S: Scalar>(
    was: S,
    now: S,
    reltol: S,
    vntol: S,
    larger: S,
)
    requires
        S::exact(),
        larger == was.spec_abs() && !was.spec_abs().spec_less(now.spec_abs()) || larger
            == now.spec_abs() && was.spec_abs().spec_less(now.spec_abs()),
        reltol.spec_times(larger).spec_plus(vntol) != S::spec_zero(),
    ensures
        weighted(was, now, reltol, vntol).spec_times(reltol.spec_times(larger).spec_plus(vntol))
            == now.spec_minus(was).spec_abs(),
{
    S::laws(
        now.spec_minus(was).spec_abs(),
        reltol.spec_times(larger).spec_plus(vntol),
        was,
    );
}

/// The worst change of a sweep is not exceeded by that of any write, and is the change
/// of the node reported with it unless nothing moved.
pub proof fn law_the_worst_change_is_the_largest<S: Scalar>(
    read: Seq<S>,
    writes: Seq<(NodeId, S)>,
    reltol: S,
    vntol: S,
    count: nat,
)
    requires
        ordered::<S>(),
        count <= writes.len(),
        forall|k: int|
            0 <= k < writes.len() ==> weighted(
                read[(#[trigger] writes[k]).0.0 as int],
                writes[k].1,
                reltol,
                vntol,
            ).spec_at_most(weighted(read[writes[k].0.0 as int], writes[k].1, reltol, vntol)),
    ensures
        ({
            let (worst, node) = worst_change(read, writes, reltol, vntol, count);
            &&& worst.spec_at_most(worst)
            &&& forall|k: int|
                0 <= k < count ==> !worst.spec_less(
                    weighted(read[(#[trigger] writes[k]).0.0 as int], writes[k].1, reltol, vntol),
                )
            &&& worst == S::spec_zero() || exists|k: int|
                0 <= k < count && (#[trigger] writes[k]).0 == node && worst == weighted(
                    read[writes[k].0.0 as int],
                    writes[k].1,
                    reltol,
                    vntol,
                )
        }),
    decreases count,
{
    if count > 0 {
        let c = (count - 1) as nat;
        law_the_worst_change_is_the_largest(read, writes, reltol, vntol, c);
        let (was, at) = worst_change(read, writes, reltol, vntol, c);
        let w = writes[count - 1];
        let change = weighted(read[w.0.0 as int], w.1, reltol, vntol);
        assert(change.spec_at_most(change));
        let (worst, node) = worst_change(read, writes, reltol, vntol, count);
        assert forall|k: int| 0 <= k < count implies !worst.spec_less(
            weighted(read[(#[trigger] writes[k]).0.0 as int], writes[k].1, reltol, vntol),
        ) by {
            let v = weighted(read[writes[k].0.0 as int], writes[k].1, reltol, vntol);
            assert(v.spec_at_most(v));
            if k < c {
                assert(!was.spec_less(v));
            }
        }
        if !was.spec_less(change) && was != S::spec_zero() {
            let k = choose|k: int|
                0 <= k < c && (#[trigger] writes[k]).0 == at && was == weighted(
                    read[writes[k].0.0 as int],
                    writes[k].1,
                    reltol,
                    vntol,
                );
            assert(writes[k].0 == node);
        }
    }
}

/// A run steps along the fixed grid: from one of its times the next step ends at the
/// next, and a step is taken exactly where the grid goes on.
pub proof fn law_steps_follow_the_grid<S: Scalar>(dt: S, tstop: S, k: nat)
    ensures
        match step_after(grid_time(dt, tstop, k), dt, tstop) {
            Some(step) => short_of_end(dt, tstop, grid_time(dt, tstop, k)) && step.until
                == grid_time(dt, tstop, k + 1),
            None => !short_of_end(dt, tstop, grid_time(dt, tstop, k)),
        },
{
    assert(grid_time(dt, tstop, (k + 1 - 1) as nat) == grid_time(dt, tstop, k));
}

/// A step is a whole one while more than that is left, and otherwise ends the run.
pub proof fn law_a_step_never_passes_the_end<S: Scalar>(t: S, dt: S, tstop: S)
    requires
        S::exact(),
    ensures
        step_after(t, dt, tstop) matches Some(step) ==> {
            &&& step.until == t.spec_plus(step.h)
            &&& dt.spec_less(tstop.spec_minus(t)) ==> step.h == dt
            &&& !dt.spec_less(tstop.spec_minus(t)) ==> step.until == tstop
        },
{
    S::laws(tstop, t, t);
    S::laws(t, tstop.spec_minus(t), t);
}

/// The failure reported is that of the first island that failed.
pub proof fn law_the_first_failure_is_reported(failures: Seq<Option<String>>, from: int)
    requires
        0 <= from <= failures.len(),
    ensures
        match lowest_failure(failures, from) {
            Some(k) => from <= k < failures.len() && failures[k] is Some && forall|j: int|
                from <= j < k ==> (#[trigger] failures[j]) is None,
            None => forall|j: int| from <= j < failures.len() ==> (#[trigger] failures[j]) is None,
        },
    decreases failures.len() - from,
{
    if from < failures.len() {
        law_the_first_failure_is_reported(failures, from + 1);
    }
}

/// The rails that a rail feeds are those whose feed it is, each once, with the shunt
/// between the two.
pub proof fn law_a_rail_feeds_what_names_it<S>(
    tears: Seq<RailTear<S>>,
    rail: NodeId,
    count: nat,
    k: usize,
    ohms: S,
)
    requires
        count <= tears.len() <= usize::MAX,
    ensures
        children(tears, rail, count).contains((k, ohms)) <==> k < count && tears[k as int].feed
            == rail && tears[k as int].r_shunt == ohms,
    decreases count,
{
    let all = children(tears, rail, count);
    if count > 0 {
        let c = (count - 1) as nat;
        law_a_rail_feeds_what_names_it(tears, rail, c, k, ohms);
        let rest = children(tears, rail, c);
        if rest.contains((k, ohms)) {
            let m = choose|m: int| 0 <= m < rest.len() && rest[m] == (k, ohms);
            assert(all[m] == (k, ohms));
        }
        if all.contains((k, ohms)) {
            let m = choose|m: int| 0 <= m < all.len() && all[m] == (k, ohms);
            if m < rest.len() {
                assert(rest[m] == (k, ohms));
            }
        }
        if tears[count - 1].feed == rail {
            assert(all[all.len() - 1] == ((count - 1) as usize, tears[count - 1].r_shunt));
        }
    }
}

} // verus!
