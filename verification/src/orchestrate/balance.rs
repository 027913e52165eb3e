//! The rail-balance outer loop: closing a balance tear's scalar current equation.
//!
//! A balance tear replaces one rail node's row of the system with a scalar
//! equation solved outside the blocks,
//!
//! ```text
//! f(v_rail) = (v_feed - v_rail) / R_shunt - sum_blocks I_drawn(v_rail)
//!           - sum_children (v_rail - v_child) / R_child = 0
//! ```
//!
//! The children of a rail are the torn rails that it feeds: the shunt between two
//! torn rails is in no block, so the parent's equation carries its current.
//!
//! Each block is solved as its own circuit and stamps its own conductance to
//! ground on its copy of the rail, where the undivided system stamps one. The
//! blocks' currents therefore over-draw the rail by all but one of these, and the
//! loop adds that surplus back.
//!
//! The loop accepts the state it reached when the pass budget runs out and says so
//! in the [`BalanceReport`].
use vstd::prelude::*;

use crate::circuit::NodeId;
use crate::field::{
    lemma_difference_of_differences, lemma_distribute, lemma_minus, lemma_minus_after_minus,
    lemma_negated_product, lemma_over, lemma_sum_of_differences,
};
use crate::scalar::Scalar;
use crate::sparse::algebra::lemma_interchange;
use crate::stamp::context::{at_least, frac, raise, ratio};
use crate::terms::{group_sums, lemma_same_terms, term, Sum};

verus! {

/// The error of a move, if it has one.
pub open spec fn error_of(r: Result<(), String>) -> Option<String> {
    match r {
        Ok(_) => None,
        Err(e) => Some(e),
    }
}

/// What the balance loop needs from the blocks loading the rails. The accessors
/// read live trial state.
pub trait RailLoads<S: Scalar> {
    /// Whether there is a rail of that number.
    spec fn covers(&self, i: usize) -> bool;

    spec fn spec_rail_voltage(&self, i: usize) -> S;

    spec fn spec_feed_voltage(&self, i: usize) -> S;

    spec fn spec_current_drawn(&self, i: usize) -> S;

    spec fn spec_n_loads(&self, i: usize) -> usize;

    /// Whether setting a rail to a voltage may lead from this state to `after`, with
    /// an error where one is given.
    spec fn moves(&self, i: usize, v: S, after: &Self, error: Option<String>) -> bool;

    /// Set a rail's trial voltage and solve the blocks loading it again.
    fn resolve(&mut self, i: usize, v_rail: S) -> (r: Result<(), String>)
        requires
            old(self).covers(i),
        ensures
            forall|j: usize| #[trigger] final(self).covers(j) == old(self).covers(j),
            old(self).moves(i, v_rail, final(self), error_of(r)),
    ;

    /// A rail's trial voltage.
    fn rail_voltage(&self, i: usize) -> (r: S)
        requires
            self.covers(i),
        ensures
            r == self.spec_rail_voltage(i),
    ;

    /// The voltage that feeds a rail's shunt.
    fn feed_voltage(&self, i: usize) -> (r: S)
        requires
            self.covers(i),
        ensures
            r == self.spec_feed_voltage(i),
    ;

    /// The current that the blocks draw out of a rail.
    fn current_drawn(&self, i: usize) -> (r: S)
        requires
            self.covers(i),
        ensures
            r == self.spec_current_drawn(i),
    ;

    /// The number of blocks loading a rail.
    fn n_loads(&self, i: usize) -> (r: usize)
        requires
            self.covers(i),
        ensures
            r == self.spec_n_loads(i),
    ;
}

/// One torn rail under balance.
#[derive(Debug)]
pub struct RailChannel<S> {
    /// The torn rail node.
    pub rail: NodeId,
    /// The series feed resistance.
    pub shunt_ohms: S,
    /// The rails that this one feeds, each with the resistance between them.
    pub children: Vec<(usize, S)>,
}

/// Tunables of the balance loop.
#[derive(Debug, Clone, Copy)]
pub struct BalancePolicy<S> {
    /// Convergence target as a fraction of the node voltage tolerance.
    pub v_target_frac: S,
    /// Cap on round-robin passes.
    pub max_outer: usize,
    /// Relative size of the probe for the slope.
    pub probe_rel: S,
    /// Absolute probe floor, for rails near zero.
    pub probe_floor: S,
}

impl<S: Scalar> Default for BalancePolicy<S> {
    fn default() -> (r: Self)
        ensures
            r.v_target_frac == frac::<S>(1, 10),
            r.max_outer == 60,
            r.probe_rel == frac::<S>(1, 1_000_000),
            r.probe_floor == frac::<S>(1, 1_000_000),
    {
        BalancePolicy {
            v_target_frac: ratio(1, 10),
            max_outer: 60,
            probe_rel: ratio(1, 1_000_000),
            probe_floor: ratio(1, 1_000_000),
        }
    }
}

/// What a settle pass did.
#[derive(Debug)]
pub struct BalanceReport<S> {
    /// Passes executed.
    pub outer_passes: usize,
    /// Each rail's residual current at the start of its last update, the value the
    /// convergence test saw.
    pub final_residuals: Vec<S>,
    /// Whether every rail met its tolerance.
    pub converged: bool,
}

/// How many blocks stamp a conductance to ground too many.
pub open spec fn surplus_count(loads: usize) -> i64 {
    if loads == 0 {
        0
    } else if loads - 1 > i64::MAX {
        i64::MAX
    } else {
        (loads - 1) as i64
    }
}

/// The conductance by which the blocks over-draw a rail.
pub open spec fn surplus<S: Scalar>(loads: usize, gmin: S) -> S {
    S::spec_int(surplus_count(loads)).spec_times(gmin)
}

fn surplus_of<S: Scalar>(loads: usize, gmin: S) -> (r: S)
    ensures
        r == surplus(loads, gmin),
{
    let n: i64 = if loads == 0 {
        0
    } else if (loads - 1) as u128 > 9_223_372_036_854_775_807u128 {
        9_223_372_036_854_775_807
    } else {
        (loads - 1) as i64
    };
    S::from_int(n).times(gmin)
}

/// The residual current of a rail with no children: what the shunt brings less
/// what the blocks draw, the surplus given back.
pub open spec fn rail_residual<S: Scalar>(feed: S, v: S, shunt: S, drawn: S, extra: S) -> S {
    feed.spec_minus(v).spec_over(shunt).spec_minus(drawn).spec_plus(extra.spec_times(v))
}

/// The current that a rail at `v` feeds to the first `count` children, each given
/// by its voltage and its resistance.
pub open spec fn fed_current<S: Scalar>(v: S, kids: Seq<(S, S)>, count: nat) -> S
    decreases count,
{
    if count == 0 {
        S::spec_zero()
    } else {
        fed_current(v, kids, (count - 1) as nat).spec_plus(
            v.spec_minus(kids[count - 1].0).spec_over(kids[count - 1].1),
        )
    }
}

/// The voltage and the resistance of each child.
pub open spec fn kids_at<S: Scalar, L: RailLoads<S>>(
    loads: &L,
    children: Seq<(usize, S)>,
) -> Seq<(S, S)> {
    Seq::new(
        children.len(),
        |k: int| (loads.spec_rail_voltage(children[k].0), children[k].1),
    )
}

/// A rail's residual at the trial state, with the surplus conductance given.
pub open spec fn residual_with<S: Scalar, L: RailLoads<S>>(
    loads: &L,
    i: usize,
    ch: &RailChannel<S>,
    extra: S,
) -> S {
    let v = loads.spec_rail_voltage(i);
    rail_residual(
        loads.spec_feed_voltage(i),
        v,
        ch.shunt_ohms,
        loads.spec_current_drawn(i),
        extra,
    ).spec_minus(fed_current(v, kids_at(loads, ch.children@), ch.children@.len()))
}

/// A rail's residual at the trial state.
pub open spec fn residual_at<S: Scalar, L: RailLoads<S>>(
    loads: &L,
    i: usize,
    ch: &RailChannel<S>,
    gmin: S,
) -> S {
    residual_with(loads, i, ch, surplus(loads.spec_n_loads(i), gmin))
}

/// Whether every child of a channel is a rail.
pub open spec fn feeds_rails<S: Scalar, L: RailLoads<S>>(loads: &L, ch: &RailChannel<S>) -> bool {
    forall|k: int|
        0 <= k < ch.children@.len() ==> loads.covers((#[trigger] ch.children@[k]).0)
}

fn measure<S: Scalar, L: RailLoads<S>>(loads: &L, i: usize, ch: &RailChannel<S>, extra: S) -> (r: S)
    requires
        loads.covers(i),
        feeds_rails(loads, ch),
    ensures
        r == residual_with(loads, i, ch, extra),
{
    let v: S = loads.rail_voltage(i);
    let i_in: S = loads.feed_voltage(i).minus(v).over(ch.shunt_ohms);
    let own: S = i_in.minus(loads.current_drawn(i)).plus(extra.times(v));
    let ghost kids = kids_at(loads, ch.children@);
    let mut fed: S = S::zero();
    let mut k: usize = 0;
    while k < ch.children.len()
        invariant
            k <= ch.children@.len(),
            feeds_rails(loads, ch),
            v == loads.spec_rail_voltage(i),
            kids == kids_at(loads, ch.children@),
            fed == fed_current(v, kids, k as nat),
        decreases ch.children@.len() - k,
    {
        let (j, ohms) = ch.children[k];
        assert(loads.covers(ch.children@[k as int].0));
        fed = fed.plus(v.minus(loads.rail_voltage(j)).over(ohms));
        k = k + 1;
    }
    own.minus(fed)
}

/// Whether a residual needs no update.
pub open spec fn negligible<S: Scalar>(f: S, abstol: S) -> bool {
    f.spec_abs().spec_at_most(at_least(abstol, frac(1, 1_000_000_000_000)))
}

/// The perturbation of the slope probe.
pub open spec fn probe_step<S: Scalar>(v: S, policy: BalancePolicy<S>) -> S {
    at_least(v.spec_abs().spec_times(policy.probe_rel), policy.probe_floor)
}

/// The scalar Newton update from two residuals a probe apart; a flat residual
/// holds its position.
pub open spec fn newton_target<S: Scalar>(v0: S, f0: S, f1: S, dv: S) -> S {
    let slope = f1.spec_minus(f0).spec_over(dv);
    if frac::<S>(1, 1_000_000_000_000_000).spec_less(slope.spec_abs()) {
        v0.spec_minus(f0.spec_over(slope))
    } else {
        v0
    }
}

pub fn probe<S: Scalar>(v: S, policy: &BalancePolicy<S>) -> (r: S)
    ensures
        r == probe_step(v, *policy),
{
    raise(v.abs().times(policy.probe_rel), policy.probe_floor)
}

pub fn newton_update<S: Scalar>(v0: S, f0: S, f1: S, dv: S) -> (r: S)
    ensures
        r == newton_target(v0, f0, f1, dv),
{
    let slope: S = f1.minus(f0).over(dv);
    if ratio::<S>(1, 1_000_000_000_000_000).less(slope.abs()) {
        v0.minus(f0.over(slope))
    } else {
        v0
    }
}

/// Whether a rail was moved to its probe and then to its Newton target, by way of
/// `mid`: the result is the residual before the update, or the error of the move
/// that failed.
pub open spec fn moved_twice<S: Scalar, L: RailLoads<S>>(
    was: &L,
    i: usize,
    ch: &RailChannel<S>,
    gmin: S,
    policy: BalancePolicy<S>,
    mid: &L,
    now: &L,
    r: Result<S, String>,
) -> bool {
    let v0 = was.spec_rail_voltage(i);
    let f0 = residual_at(was, i, ch, gmin);
    let dv = probe_step(v0, policy);
    let f1 = residual_with(mid, i, ch, surplus(was.spec_n_loads(i), gmin));
    let target = newton_target(v0, f0, f1, dv);
    match r {
        Ok(f) => {
            &&& f == f0
            &&& was.moves(i, v0.spec_plus(dv), mid, None)
            &&& mid.moves(i, target, now, None)
        },
        Err(e) => {
            ||| was.moves(i, v0.spec_plus(dv), now, Some(e))
            ||| was.moves(i, v0.spec_plus(dv), mid, None) && mid.moves(i, target, now, Some(e))
        },
    }
}

/// Whether one update of a rail leads from `was` to `now` with the result `r`: a
/// negligible residual moves nothing, any other moves the rail twice.
pub open spec fn updated<S: Scalar, L: RailLoads<S>>(
    was: &L,
    i: usize,
    ch: &RailChannel<S>,
    gmin: S,
    abstol: S,
    policy: BalancePolicy<S>,
    now: &L,
    r: Result<S, String>,
) -> bool {
    let f0 = residual_at(was, i, ch, gmin);
    if negligible(f0, abstol) {
        *now == *was && r == Ok::<S, String>(f0)
    } else {
        exists|mid: L| #[trigger] moved_twice(was, i, ch, gmin, policy, &mid, now, r)
    }
}

/// One scalar Newton update of a rail. Returns the residual before the update, so
/// that convergence is judged on the balance error and not on the step.
pub fn balance_one<S: Scalar, L: RailLoads<S>>(
    loads: &mut L,
    i: usize,
    ch: &RailChannel<S>,
    gmin: S,
    abstol: S,
    policy: &BalancePolicy<S>,
) -> (r: Result<S, String>)
    requires
        old(loads).covers(i),
        feeds_rails(old(loads), ch),
    ensures
        forall|j: usize| #[trigger] final(loads).covers(j) == old(loads).covers(j),
        updated(old(loads), i, ch, gmin, abstol, *policy, final(loads), r),
{
    let ghost was = *loads;
    let extra: S = surplus_of(loads.n_loads(i), gmin);
    let v0: S = loads.rail_voltage(i);
    let f0: S = measure(&*loads, i, ch, extra);
    if f0.abs().at_most(raise(abstol, ratio(1, 1_000_000_000_000))) {
        return Ok(f0);
    }
    let dv: S = probe(v0, policy);
    match loads.resolve(i, v0.plus(dv)) {
        Ok(()) => {},
        Err(e) => {
            let r: Result<S, String> = Err(e);
            assert(moved_twice(&was, i, ch, gmin, *policy, &*loads, &*loads, r));
            return r;
        },
    }
    let ghost mid = *loads;
    proof {
        assert forall|k: int| 0 <= k < ch.children@.len() implies loads.covers(
            (#[trigger] ch.children@[k]).0,
        ) by {
            assert(was.covers(ch.children@[k].0));
        }
    }
    let f1: S = measure(&*loads, i, ch, extra);
    let second = loads.resolve(i, newton_update(v0, f0, f1, dv));
    let r: Result<S, String> = match second {
        Ok(()) => Ok(f0),
        Err(e) => Err(e),
    };
    assert(moved_twice(&was, i, ch, gmin, *policy, &mid, &*loads, r));
    r
}

/// The residual current a rail may keep: a voltage error below the target.
pub open spec fn residual_limit<S: Scalar>(vntol: S, policy: BalancePolicy<S>, shunt: S) -> S {
    let target = at_least(
        vntol.spec_times(policy.v_target_frac),
        frac(1, 1_000_000_000_000),
    );
    at_least(target.spec_over(shunt), frac(1, 1_000_000_000_000_000))
}

/// Whether the first `count` residuals are within their limits.
pub open spec fn within_limits<S: Scalar>(
    residuals: Seq<S>,
    channels: Seq<RailChannel<S>>,
    vntol: S,
    policy: BalancePolicy<S>,
    count: int,
) -> bool {
    forall|i: int|
        0 <= i < count ==> !residual_limit(
            vntol,
            policy,
            (#[trigger] channels[i]).shunt_ohms,
        ).spec_less(residuals[i].spec_abs())
}

/// Whether every rail is so close to balance that none is moved.
pub open spec fn at_rest<S: Scalar, L: RailLoads<S>>(
    loads: &L,
    channels: Seq<RailChannel<S>>,
    gmin: S,
    abstol: S,
) -> bool {
    forall|i: int|
        0 <= i < channels.len() ==> negligible(
            residual_at(loads, i as usize, &#[trigger] channels[i], gmin),
            abstol,
        )
}

/// What a balance is run with.
pub struct Terms<S> {
    pub channels: Seq<RailChannel<S>>,
    pub gmin: S,
    pub vntol: S,
    pub abstol: S,
    pub policy: BalancePolicy<S>,
}

impl<S: Scalar> Terms<S> {
    /// One update of a rail.
    pub open spec fn updates<L: RailLoads<S>>(
        self,
        was: &L,
        i: int,
        now: &L,
        r: Result<S, String>,
    ) -> bool {
        updated(was, i as usize, &self.channels[i], self.gmin, self.abstol, self.policy, now, r)
    }

    /// Whether updating the first rails in turn, as many as residuals are listed,
    /// leads from `was` to `now` and meets these residuals.
    pub open spec fn sweeps<L: RailLoads<S>>(self, was: &L, met: Seq<S>, now: &L) -> bool
        decreases met.len(),
    {
        if met.len() == 0 {
            *now == *was
        } else {
            exists|mid: L|
                #![trigger self.updates(&mid, met.len() - 1, now, Ok(met.last()))]
                self.sweeps(was, met.drop_last(), &mid) && self.updates(
                    &mid,
                    met.len() - 1,
                    now,
                    Ok(met.last()),
                )
        }
    }

    /// Whether the residuals of a pass are all within their limits.
    pub open spec fn within(self, met: Seq<S>) -> bool {
        within_limits(met, self.channels, self.vntol, self.policy, self.channels.len() as int)
    }

    /// Whether so many whole passes, none but the last within its limits, lead from
    /// `was` to `now`, the last meeting these residuals; zeros stand for none.
    pub open spec fn passes<L: RailLoads<S>>(
        self,
        was: &L,
        count: nat,
        met: Seq<S>,
        now: &L,
    ) -> bool
        decreases count,
    {
        if count == 0 {
            &&& *now == *was
            &&& met.len() == self.channels.len()
            &&& forall|i: int| 0 <= i < met.len() ==> #[trigger] met[i] == S::spec_zero()
        } else {
            exists|before: Seq<S>, mid: L| #[trigger]
                self.goes_on(was, (count - 1) as nat, before, &mid, met, now) && self.passes(
                    was,
                    (count - 1) as nat,
                    before,
                    &mid,
                )
        }
    }

    /// Whether a pass that met `met` may follow so many, the last of which met
    /// `before`.
    pub open spec fn goes_on<L: RailLoads<S>>(
        self,
        was: &L,
        count: nat,
        before: Seq<S>,
        mid: &L,
        met: Seq<S>,
        now: &L,
    ) -> bool {
        &&& met.len() == self.channels.len()
        &&& count > 0 ==> !self.within(before)
        &&& self.sweeps(mid, met, now)
    }

    /// Whether a balance may end with this report.
    pub open spec fn reports<L: RailLoads<S>>(
        self,
        was: &L,
        now: &L,
        report: BalanceReport<S>,
    ) -> bool {
        let met = report.final_residuals@;
        &&& self.passes(was, report.outer_passes as nat, met, now)
        &&& report.outer_passes <= self.policy.max_outer
        &&& report.converged <==> report.outer_passes > 0 && self.within(met)
        &&& !report.converged ==> report.outer_passes == self.policy.max_outer
    }

    /// Whether a balance, after so many passes and part of one that met `part`, ended
    /// with the error of the move it made next.
    pub open spec fn fails<L: RailLoads<S>>(
        self,
        was: &L,
        count: nat,
        met: Seq<S>,
        between: &L,
        part: Seq<S>,
        last: &L,
        now: &L,
        e: String,
    ) -> bool {
        &&& self.passes(was, count, met, between)
        &&& count < self.policy.max_outer
        &&& count > 0 ==> !self.within(met)
        &&& part.len() < self.channels.len()
        &&& self.sweeps(between, part, last)
        &&& self.updates(last, part.len() as int, now, Err(e))
    }

    /// Whether a balance may end with that error.
    pub open spec fn may_fail<L: RailLoads<S>>(self, was: &L, now: &L, e: String) -> bool {
        exists|count: nat, met: Seq<S>, between: L, part: Seq<S>, last: L| #[trigger]
            self.fails(was, count, met, &between, part, &last, now, e)
    }

    /// Whether a balance may lead from `was` to `now` with the result `r`.
    pub open spec fn settles<L: RailLoads<S>>(
        self,
        was: &L,
        now: &L,
        r: Result<BalanceReport<S>, String>,
    ) -> bool {
        match r {
            Ok(report) => self.reports(was, now, report),
            Err(e) => self.may_fail(was, now, e),
        }
    }
}

/// Whether the residuals of a pass end the balance.
pub fn within_all<S: Scalar>(
    residuals: &Vec<S>,
    channels: &Vec<RailChannel<S>>,
    vntol: S,
    policy: &BalancePolicy<S>,
) -> (r: bool)
    requires
        residuals@.len() == channels@.len(),
    ensures
        r == within_limits(residuals@, channels@, vntol, *policy, channels@.len() as int),
{
    let v_target: S = raise(vntol.times(policy.v_target_frac), ratio(1, 1_000_000_000_000));
    let mut i: usize = 0;
    while i < channels.len()
        invariant
            i <= channels@.len() == residuals@.len(),
            v_target == at_least(
                vntol.spec_times(policy.v_target_frac),
                frac(1, 1_000_000_000_000),
            ),
            within_limits(residuals@, channels@, vntol, *policy, i as int),
        decreases channels@.len() - i,
    {
        let limit: S = raise(
            v_target.over(channels[i].shunt_ohms),
            ratio(1, 1_000_000_000_000_000),
        );
        assert(limit == residual_limit(vntol, *policy, channels@[i as int].shunt_ohms));
        if limit.less(residuals[i].abs()) {
            return false;
        }
        i = i + 1;
    }
    true
}

/// Whether no update changes a state: each leaves it and meets the residual that is
/// there.
pub open spec fn unmoved<S: Scalar, L: RailLoads<S>>(t: Terms<S>, was: &L) -> bool {
    forall|i: int, now: L, r: Result<S, String>|
        0 <= i < t.channels.len() && #[trigger] t.updates(was, i, &now, r) ==> now == *was && r
            == Ok::<S, String>(residual_at(was, i as usize, &t.channels[i], t.gmin))
}

/// The residuals of a state's rails.
pub open spec fn residuals_at<S: Scalar, L: RailLoads<S>>(t: Terms<S>, was: &L) -> Seq<S> {
    Seq::new(
        t.channels.len(),
        |i: int| residual_at(was, i as usize, &t.channels[i], t.gmin),
    )
}

/// A pass over an unmoved state meets the residuals that are there.
proof fn lemma_unmoved_sweep<S: Scalar, L: RailLoads<S>>(
    t: Terms<S>,
    was: &L,
    met: Seq<S>,
    now: &L,
)
    requires
        t.sweeps(was, met, now),
        met.len() <= t.channels.len(),
        unmoved(t, was),
    ensures
        *now == *was,
        met == residuals_at(t, was).take(met.len() as int),
    decreases met.len(),
{
    if met.len() > 0 {
        let mid = choose|mid: L|
            #![trigger t.updates(&mid, met.len() - 1, now, Ok(met.last()))]
            t.sweeps(was, met.drop_last(), &mid) && t.updates(
                &mid,
                met.len() - 1,
                now,
                Ok(met.last()),
            );
        lemma_unmoved_sweep(t, was, met.drop_last(), &mid);
        assert(t.updates(was, met.len() - 1, now, Ok(met.last())));
        assert forall|i: int| 0 <= i < met.len() implies #[trigger] met[i] == residuals_at(
            t,
            was,
        )[i] by {
            if i < met.len() - 1 {
                assert(met.drop_last()[i] == met[i]);
            }
        }
    }
    assert(met =~= residuals_at(t, was).take(met.len() as int));
}

proof fn lemma_unmoved_passes<S: Scalar, L: RailLoads<S>>(
    t: Terms<S>,
    was: &L,
    count: nat,
    met: Seq<S>,
    now: &L,
)
    requires
        t.passes(was, count, met, now),
        unmoved(t, was),
    ensures
        *now == *was,
        count > 0 ==> met == residuals_at(t, was),
    decreases count,
{
    if count > 0 {
        let (before, mid) = choose|before: Seq<S>, mid: L| #[trigger]
            t.goes_on(was, (count - 1) as nat, before, &mid, met, now) && t.passes(
                was,
                (count - 1) as nat,
                before,
                &mid,
            );
        lemma_unmoved_passes(t, was, (count - 1) as nat, before, &mid);
        lemma_unmoved_sweep(t, was, met, now);
        assert(met =~= residuals_at(t, was));
    }
}

proof fn lemma_unmoved_settle<S: Scalar, L: RailLoads<S>>(
    t: Terms<S>,
    was: &L,
    now: &L,
    r: Result<BalanceReport<S>, String>,
)
    requires
        unmoved(t, was),
        t.settles(was, now, r),
    ensures
        *now == *was,
        r matches Ok(report) && (report.outer_passes > 0 ==> report.final_residuals@
            == residuals_at(t, was)),
{
    match r {
        Ok(report) => {
            lemma_unmoved_passes(
                t,
                was,
                report.outer_passes as nat,
                report.final_residuals@,
                now,
            );
        },
        Err(e) => {
            assert(t.may_fail(was, now, e));
            let (count, met, between, part, last) = choose|
                count: nat,
                met: Seq<S>,
                between: L,
                part: Seq<S>,
                last: L,
            | #[trigger] t.fails(was, count, met, &between, part, &last, now, e);
            lemma_unmoved_passes(t, was, count, met, &between);
            lemma_unmoved_sweep(t, was, part, &last);
            assert(t.updates(was, part.len() as int, now, Err(e)));
        },
    }
}

/// Rails at rest are left alone: a balance of them succeeds, moves nothing, and
/// after a pass reports the residuals that are there.
pub proof fn law_rails_at_rest_stay<S: Scalar, L: RailLoads<S>>(
    t: Terms<S>,
    was: &L,
    now: &L,
    r: Result<BalanceReport<S>, String>,
)
    requires
        at_rest(was, t.channels, t.gmin, t.abstol),
        t.settles(was, now, r),
    ensures
        *now == *was,
        r matches Ok(report) && (report.outer_passes > 0 ==> report.final_residuals@
            == residuals_at(t, was)),
{
    assert forall|i: int, now: L, r: Result<S, String>|
        0 <= i < t.channels.len() && #[trigger] t.updates(was, i, &now, r) implies now == *was && r
        == Ok::<S, String>(residual_at(was, i as usize, &t.channels[i], t.gmin)) by {
        assert(negligible(residual_at(was, i as usize, &t.channels[i], t.gmin), t.abstol));
    }
    lemma_unmoved_settle(t, was, now, r);
}

/// Whether moves of these rails always succeed and change nothing.
pub open spec fn stuck<S: Scalar, L: RailLoads<S>>(was: &L) -> bool {
    forall|i: usize, v: S, after: L, error: Option<String>| #[trigger]
        was.moves(i, v, &after, error) ==> after == *was && error is None
}

/// A stuck balance is reported, neither an error nor hidden: the report has the
/// residuals that are there, and unless they are within their limits it says that
/// the balance did not converge, after every pass allowed.
pub proof fn law_stuck_rails_are_reported<S: Scalar, L: RailLoads<S>>(
    t: Terms<S>,
    was: &L,
    now: &L,
    r: Result<BalanceReport<S>, String>,
)
    requires
        stuck::<S, L>(was),
        t.settles(was, now, r),
        t.policy.max_outer > 0,
        !t.within(residuals_at(t, was)),
    ensures
        r matches Ok(report) && !report.converged && report.outer_passes == t.policy.max_outer
            && report.final_residuals@ == residuals_at(t, was),
{
    assert forall|i: int, now: L, r: Result<S, String>|
        0 <= i < t.channels.len() && #[trigger] t.updates(was, i, &now, r) implies now == *was && r
        == Ok::<S, String>(residual_at(was, i as usize, &t.channels[i], t.gmin)) by {
        let ch = &t.channels[i];
        if !negligible(residual_at(was, i as usize, ch, t.gmin), t.abstol) {
            let mid = choose|mid: L| #[trigger]
                moved_twice(was, i as usize, ch, t.gmin, t.policy, &mid, &now, r);
            assert(moved_twice(was, i as usize, ch, t.gmin, t.policy, &mid, &now, r));
        }
    }
    lemma_unmoved_settle(t, was, now, r);
}

proof fn lemma_one_more_pass<S: Scalar, L: RailLoads<S>>(
    t: Terms<S>,
    was: &L,
    count: nat,
    before: Seq<S>,
    mid: &L,
    met: Seq<S>,
    now: &L,
)
    requires
        t.passes(was, count, before, mid),
        t.goes_on(was, count, before, mid, met, now),
    ensures
        t.passes(was, count + 1, met, now),
{
    assert(((count + 1) - 1) as nat == count);
    assert(t.goes_on(was, ((count + 1) - 1) as nat, before, mid, met, now));
}

proof fn lemma_failed_move<S: Scalar, L: RailLoads<S>>(
    t: Terms<S>,
    was: &L,
    count: nat,
    met: Seq<S>,
    between: &L,
    part: Seq<S>,
    last: &L,
    now: &L,
    e: String,
)
    requires
        t.fails(was, count, met, between, part, last, now, e),
    ensures
        t.may_fail(was, now, e),
{
}

/// Drive every rail's residual below its limit by round-robin scalar Newton,
/// solving again only the blocks of a rail that moves. An error is one that
/// solving a block gave.
pub fn settle_rails<S: Scalar, L: RailLoads<S>>(
    loads: &mut L,
    channels: &Vec<RailChannel<S>>,
    gmin: S,
    vntol: S,
    abstol: S,
    policy: &BalancePolicy<S>,
) -> (r: Result<BalanceReport<S>, String>)
    requires
        forall|i: usize| i < channels@.len() ==> #[trigger] old(loads).covers(i),
        forall|i: int|
            0 <= i < channels@.len() ==> feeds_rails(old(loads), &#[trigger] channels@[i]),
    ensures
        policy.max_outer == 0 ==> r is Ok,
        (Terms { channels: channels@, gmin, vntol, abstol, policy: *policy }).settles(
            old(loads),
            final(loads),
            r,
        ),
{
    let mut residuals: Vec<S> = Vec::new();
    let n: usize = channels.len();
    let mut k: usize = 0;
    while k < n
        invariant
            k <= n,
            residuals@.len() == k,
            forall|j: int| 0 <= j < k ==> #[trigger] residuals@[j] == S::spec_zero(),
        decreases n - k,
    {
        residuals.push(S::zero());
        k = k + 1;
    }
    let ghost t = Terms { channels: channels@, gmin, vntol, abstol, policy: *policy };
    let ghost start = *loads;
    let mut passes: usize = 0;
    let mut converged: bool = false;
    while passes < policy.max_outer && !converged
        invariant
            n == channels@.len(),
            t == (Terms { channels: channels@, gmin, vntol, abstol, policy: *policy }),
            start == *old(loads),
            passes <= policy.max_outer,
            residuals@.len() == n,
            t.passes(&start, passes as nat, residuals@, &*loads),
            converged <==> passes > 0 && t.within(residuals@),
            forall|i: usize| i < n ==> #[trigger] loads.covers(i),
            forall|i: int|
                0 <= i < channels@.len() ==> feeds_rails(&*loads, &#[trigger] channels@[i]),
        decreases
                policy.max_outer - passes,
                if converged {
                    0int
                } else {
                    1int
                },
    {
        let ghost first = *loads;
        let ghost met = residuals@;
        let ghost mut part: Seq<S> = Seq::empty();
        let mut i: usize = 0;
        while i < n
            invariant
                i <= n == channels@.len(),
                t == (Terms { channels: channels@, gmin, vntol, abstol, policy: *policy }),
                start == *old(loads),
                passes < policy.max_outer,
                passes > 0 ==> !t.within(met),
                t.passes(&start, passes as nat, met, &first),
                residuals@.len() == n,
                part.len() == i,
                part == residuals@.take(i as int),
                t.sweeps(&first, part, &*loads),
                forall|i: usize| i < n ==> #[trigger] loads.covers(i),
                forall|i: int|
                    0 <= i < channels@.len() ==> feeds_rails(&*loads, &#[trigger] channels@[i]),
            decreases n - i,
        {
            assert(loads.covers(i));
            assert(feeds_rails(&*loads, &channels@[i as int]));
            let ghost was = *loads;
            let resid: S = match balance_one(loads, i, &channels[i], gmin, abstol, policy) {
                Ok(f) => f,
                Err(e) => {
                    assert(t.updates(&was, i as int, &*loads, Err(e)));
                    proof {
                        lemma_failed_move(
                            t,
                            &start,
                            passes as nat,
                            met,
                            &first,
                            part,
                            &was,
                            &*loads,
                            e,
                        );
                    }
                    return Err(e);
                },
            };
            residuals.set(i, resid);
            proof {
                let more = part.push(resid);
                assert(more.drop_last() =~= part);
                assert(t.updates(&was, more.len() - 1, &*loads, Ok(more.last())));
                assert(residuals@.take(i + 1) =~= more);
                part = more;
                assert forall|j: usize| j < n implies #[trigger] loads.covers(j) by {
                    assert(was.covers(j));
                }
                assert forall|j: int| 0 <= j < channels@.len() implies feeds_rails(
                    &*loads,
                    &#[trigger] channels@[j],
                ) by {
                    assert(feeds_rails(&was, &channels@[j]));
                    let ch = channels@[j];
                    assert forall|k: int| 0 <= k < ch.children@.len() implies loads.covers(
                        (#[trigger] ch.children@[k]).0,
                    ) by {
                        assert(was.covers(ch.children@[k].0));
                    }
                }
            }
            i = i + 1;
        }
        proof {
            assert(residuals@.take(n as int) =~= residuals@);
            assert(t.sweeps(&first, residuals@, &*loads));
            lemma_one_more_pass(t, &start, passes as nat, met, &first, residuals@, &*loads);
        }
        passes = passes + 1;
        converged = within_all(&residuals, channels, vntol, policy);
    }
    Ok(BalanceReport { outer_passes: passes, final_residuals: residuals, converged })
}

/// The conductances of the first `count` blocks, each with its own shunt.
pub open spec fn shunted_sum<S: Scalar>(blocks: Seq<S>, gmin: S, count: nat) -> S
    decreases count,
{
    if count == 0 {
        S::spec_zero()
    } else {
        shunted_sum(blocks, gmin, (count - 1) as nat).spec_plus(blocks[count - 1].spec_plus(gmin))
    }
}

/// The conductances of the first `count` blocks.
pub open spec fn block_sum<S: Scalar>(blocks: Seq<S>, count: nat) -> S
    decreases count,
{
    if count == 0 {
        S::spec_zero()
    } else {
        block_sum(blocks, (count - 1) as nat).spec_plus(blocks[count - 1])
    }
}

/// `n` shunted blocks carry their conductances and `n` shunts.
proof fn lemma_shunted_sum<S: Scalar>(blocks: Seq<S>, gmin: S, count: nat)
    requires
        S::exact(),
        count < i64::MAX,
        count <= blocks.len(),
    ensures
        shunted_sum(blocks, gmin, count) == block_sum(blocks, count).spec_plus(
            S::spec_int(count as i64).spec_times(gmin),
        ),
    decreases count,
{
    let zero = S::spec_zero();
    S::integer_laws(0);
    S::laws(gmin, zero, zero);
    S::laws(zero, gmin, zero);
    S::laws(zero, zero, zero);
    if count > 0 {
        let below = (count - 1) as nat;
        lemma_shunted_sum(blocks, gmin, below);
        S::integer_laws(below as i64);
        let k = S::spec_int(below as i64);
        let one = S::spec_int(1);
        S::laws(k, one, gmin);
        S::laws(gmin, one, gmin);
        S::laws(one, gmin, gmin);
        lemma_interchange(
            block_sum(blocks, below),
            k.spec_times(gmin),
            blocks[count - 1],
            gmin,
        );
    }
}

/// The conductances to the first `count` children.
pub open spec fn kid_conductance<S: Scalar>(kids: Seq<(S, S)>, count: nat) -> S
    decreases count,
{
    if count == 0 {
        S::spec_zero()
    } else {
        kid_conductance(kids, (count - 1) as nat).spec_plus(
            S::spec_int(1).spec_over(kids[count - 1].1),
        )
    }
}

/// The current that the first `count` children bring at their voltages.
pub open spec fn kid_current<S: Scalar>(kids: Seq<(S, S)>, count: nat) -> S
    decreases count,
{
    if count == 0 {
        S::spec_zero()
    } else {
        kid_current(kids, (count - 1) as nat).spec_plus(
            kids[count - 1].0.spec_over(kids[count - 1].1),
        )
    }
}

/// Whether no child hangs on a short.
pub open spec fn resistive<S: Scalar>(kids: Seq<(S, S)>) -> bool {
    forall|k: int| 0 <= k < kids.len() ==> (#[trigger] kids[k]).1 != S::spec_zero()
}

/// What a rail feeds to its children is linear in its voltage.
proof fn lemma_fed_current<S: Scalar>(v: S, kids: Seq<(S, S)>, count: nat)
    requires
        S::exact(),
        resistive(kids),
        count <= kids.len(),
    ensures
        fed_current(v, kids, count) == kid_conductance(kids, count).spec_times(v).spec_minus(
            kid_current(kids, count),
        ),
    decreases count,
{
    let zero = S::spec_zero();
    S::laws(v, zero, zero);
    S::laws(zero, v, zero);
    S::laws(zero, zero, zero);
    if count > 0 {
        let below = (count - 1) as nat;
        lemma_fed_current(v, kids, below);
        let (vc, rc) = kids[count - 1];
        assert(kids[count - 1].1 != zero);
        let k = S::spec_int(1).spec_over(rc);
        lemma_over(v.spec_minus(vc), rc);
        lemma_over(vc, rc);
        lemma_distribute(v, vc, k);
        S::laws(v, k, k);
        let kc = kid_conductance(kids, below);
        S::laws(kc, k, v);
        lemma_sum_of_differences(
            kc.spec_times(v),
            kid_current(kids, below),
            k.spec_times(v),
            vc.spec_over(rc),
        );
    }
}

/// The residual of linear blocks at a rail voltage.
pub open spec fn linear_residual<S: Scalar>(
    feed: S,
    shunt: S,
    blocks: Seq<S>,
    gmin: S,
    kids: Seq<(S, S)>,
    v: S,
) -> S {
    rail_residual(
        feed,
        v,
        shunt,
        shunted_sum(blocks, gmin, blocks.len()).spec_times(v),
        surplus(blocks.len() as usize, gmin),
    ).spec_minus(fed_current(v, kids, kids.len()))
}

/// The conductance on the rail of the undivided system: the feed, the blocks, one
/// shunt, and the children.
pub open spec fn rail_conductance<S: Scalar>(
    shunt: S,
    blocks: Seq<S>,
    gmin: S,
    kids: Seq<(S, S)>,
) -> S {
    S::spec_int(1).spec_over(shunt).spec_plus(block_sum(blocks, blocks.len())).spec_plus(
        gmin,
    ).spec_plus(kid_conductance(kids, kids.len()))
}

/// The current into the rail of the undivided system from the nodes around it.
pub open spec fn rail_current_in<S: Scalar>(feed: S, shunt: S, kids: Seq<(S, S)>) -> S {
    feed.spec_over(shunt).spec_plus(kid_current(kids, kids.len()))
}

/// The residual is what the undivided system has on the rail's row, rails that it
/// feeds included: the surplus exactly undoes the shunts counted more than once,
/// and every child brings its own conductance and current.
pub proof fn law_surplus_undoes_the_double_count<S: Scalar>(
    feed: S,
    shunt: S,
    blocks: Seq<S>,
    gmin: S,
    kids: Seq<(S, S)>,
    v: S,
)
    requires
        S::exact(),
        shunt != S::spec_zero(),
        resistive(kids),
        0 < blocks.len() < i64::MAX,
        blocks.len() <= usize::MAX,
    ensures
        linear_residual(feed, shunt, blocks, gmin, kids, v) == rail_current_in(
            feed,
            shunt,
            kids,
        ).spec_minus(rail_conductance(shunt, blocks, gmin, kids).spec_times(v)),
{
    let n = blocks.len();
    let zero = S::spec_zero();
    let one = S::spec_int(1);
    let k = one.spec_over(shunt);
    let gs = block_sum(blocks, n);
    let s = surplus(n as usize, gmin);
    let d = shunted_sum(blocks, gmin, n);
    // d == (gs + gmin) + s
    lemma_shunted_sum(blocks, gmin, n);
    S::integer_laws((n - 1) as i64);
    let m = S::spec_int((n - 1) as i64);
    S::laws(m, one, gmin);
    S::laws(gmin, one, gmin);
    S::laws(one, gmin, gmin);
    assert(S::spec_int(n as i64).spec_times(gmin) == s.spec_plus(gmin));
    S::laws(s, gmin, gmin);
    S::laws(gs, gmin, s);
    let own = gs.spec_plus(gmin);
    assert(d == own.spec_plus(s));
    // the feed term
    let c = feed.spec_over(shunt);
    lemma_over(feed.spec_minus(v), shunt);
    lemma_over(feed, shunt);
    lemma_distribute(feed, v, k);
    S::laws(v, k, k);
    let kv = k.spec_times(v);
    assert(feed.spec_minus(v).spec_over(shunt) == c.spec_minus(kv));
    // the drawn and the surplus terms
    let ov = own.spec_times(v);
    let sv = s.spec_times(v);
    S::laws(own, s, v);
    assert(d.spec_times(v) == ov.spec_plus(sv));
    let x = c.spec_minus(kv);
    lemma_minus(x, ov.spec_plus(sv));
    lemma_minus(x.spec_minus(ov), sv);
    lemma_minus_after_minus(x, ov, sv);
    assert(x.spec_minus(d.spec_times(v)) == x.spec_minus(ov).spec_minus(sv));
    S::laws(x.spec_minus(ov), sv, sv);
    lemma_minus_after_minus(c, kv, ov);
    S::laws(k, own, v);
    S::laws(k, gs, gmin);
    // the children
    let kc = kid_conductance(kids, kids.len());
    let g = k.spec_plus(gs).spec_plus(gmin);
    lemma_fed_current(v, kids, kids.len());
    lemma_difference_of_differences(
        c,
        g.spec_times(v),
        kc.spec_times(v),
        kid_current(kids, kids.len()),
    );
    S::laws(g, kc, v);
}

/// One update settles linear blocks: from any voltage and with any probe the
/// Newton target has no residual, so it is the voltage of the undivided system.
pub proof fn law_linear_rails_settle_in_one_update<S: Scalar>(
    feed: S,
    shunt: S,
    blocks: Seq<S>,
    gmin: S,
    kids: Seq<(S, S)>,
    v0: S,
    dv: S,
)
    requires
        S::exact(),
        shunt != S::spec_zero(),
        resistive(kids),
        0 < blocks.len() < i64::MAX,
        blocks.len() <= usize::MAX,
        dv != S::spec_zero(),
        rail_conductance(shunt, blocks, gmin, kids) != S::spec_zero(),
        frac::<S>(1, 1_000_000_000_000_000).spec_less(
            rail_conductance(shunt, blocks, gmin, kids).spec_negated().spec_abs(),
        ),
    ensures
        ({
            let f0 = linear_residual(feed, shunt, blocks, gmin, kids, v0);
            let f1 = linear_residual(feed, shunt, blocks, gmin, kids, v0.spec_plus(dv));
            let v = newton_target(v0, f0, f1, dv);
            &&& linear_residual(feed, shunt, blocks, gmin, kids, v) == S::spec_zero()
            &&& rail_conductance(shunt, blocks, gmin, kids).spec_times(v)
                == rail_current_in(feed, shunt, kids)
        }),
{
    let zero = S::spec_zero();
    let g = rail_conductance(shunt, blocks, gmin, kids);
    let m = g.spec_negated();
    let c = rail_current_in(feed, shunt, kids);
    let v1 = v0.spec_plus(dv);
    let f0 = linear_residual(feed, shunt, blocks, gmin, kids, v0);
    let f1 = linear_residual(feed, shunt, blocks, gmin, kids, v1);
    law_surplus_undoes_the_double_count(feed, shunt, blocks, gmin, kids, v0);
    law_surplus_undoes_the_double_count(feed, shunt, blocks, gmin, kids, v1);
    // f1 - f0 == m * dv
    let a = g.spec_times(v0);
    let b = g.spec_times(dv);
    S::laws(v0, dv, g);
    S::laws(g, v1, g);
    S::laws(g, v0, g);
    S::laws(g, dv, g);
    assert(g.spec_times(v1) == a.spec_plus(b));
    lemma_minus_after_minus(c, a, b);
    assert(f1 == f0.spec_minus(b));
    lemma_minus(f0, b);
    lemma_negated_product(g, dv);
    let md = m.spec_times(dv);
    assert(f1 == f0.spec_plus(md));
    S::laws(f0, md, md);
    S::laws(md, f0, f0);
    assert(f1.spec_minus(f0) == md);
    // slope == m
    S::laws(md, dv, dv);
    let slope = md.spec_over(dv);
    S::laws(slope, dv, dv);
    assert(slope == m) by {
        lemma_over(md, dv);
        let inv = S::spec_int(1).spec_over(dv);
        S::laws(S::spec_int(1), dv, dv);
        S::laws(m, dv, inv);
        S::laws(dv, inv, inv);
        S::laws(inv, dv, dv);
        S::laws(m, S::spec_int(1), m);
    }
    // the target
    assert(m != zero) by {
        if m == zero {
            S::laws(g, zero, zero);
        }
    }
    let q = f0.spec_over(m);
    let v = v0.spec_minus(q);
    S::laws(f0, m, m);
    law_surplus_undoes_the_double_count(feed, shunt, blocks, gmin, kids, v);
    // g * v == g * v0 - g * q == g * v0 + f0 == c
    lemma_distribute(v0, q, g);
    S::laws(g, v, g);
    S::laws(g, q, g);
    let gq = g.spec_times(q);
    lemma_negated_product(g, q);
    S::laws(q, m, m);
    S::laws(m, q, q);
    assert(gq.spec_negated() == f0);
    lemma_minus(a, gq);
    assert(g.spec_times(v) == a.spec_plus(f0));
    S::laws(c, a, a);
    S::laws(a, f0, f0);
    assert(g.spec_times(v) == c);
    lemma_minus(c, c);
    S::laws(c, c, c);
}

/// Whether a rail's blocks are conductances at this state, with these children.
pub open spec fn linear_at<S: Scalar, L: RailLoads<S>>(
    loads: &L,
    i: usize,
    ch: &RailChannel<S>,
    feed: S,
    blocks: Seq<S>,
    gmin: S,
    kids: Seq<(S, S)>,
) -> bool {
    &&& loads.spec_feed_voltage(i) == feed
    &&& loads.spec_n_loads(i) == blocks.len()
    &&& loads.spec_current_drawn(i) == shunted_sum(blocks, gmin, blocks.len()).spec_times(
        loads.spec_rail_voltage(i),
    )
    &&& kids_at(loads, ch.children@) == kids
}

/// Whether every move of a rail sets its voltage and leaves its blocks conductances,
/// its feed and its children.
pub open spec fn stays_linear<S: Scalar, L: RailLoads<S>>(
    was: &L,
    i: usize,
    ch: &RailChannel<S>,
    feed: S,
    blocks: Seq<S>,
    gmin: S,
    kids: Seq<(S, S)>,
) -> bool {
    forall|a: L, v: S, b: L| #[trigger]
        a.moves(i, v, &b, None) ==> b.spec_rail_voltage(i) == v && linear_at(
            &b,
            i,
            ch,
            feed,
            blocks,
            gmin,
            kids,
        )
}

/// An update brings a rail with linear blocks to the voltage that the undivided
/// system has there, and leaves no residual, where the arithmetic is exact.
pub proof fn law_an_update_settles_a_linear_rail<S: Scalar, L: RailLoads<S>>(
    was: &L,
    i: usize,
    ch: &RailChannel<S>,
    gmin: S,
    abstol: S,
    policy: BalancePolicy<S>,
    now: &L,
    f: S,
    feed: S,
    blocks: Seq<S>,
    kids: Seq<(S, S)>,
)
    requires
        S::exact(),
        updated(was, i, ch, gmin, abstol, policy, now, Ok(f)),
        !negligible(residual_at(was, i, ch, gmin), abstol),
        linear_at(was, i, ch, feed, blocks, gmin, kids),
        stays_linear(was, i, ch, feed, blocks, gmin, kids),
        ch.shunt_ohms != S::spec_zero(),
        resistive(kids),
        0 < blocks.len() < i64::MAX,
        blocks.len() <= usize::MAX,
        probe_step(was.spec_rail_voltage(i), policy) != S::spec_zero(),
        rail_conductance(ch.shunt_ohms, blocks, gmin, kids) != S::spec_zero(),
        frac::<S>(1, 1_000_000_000_000_000).spec_less(
            rail_conductance(ch.shunt_ohms, blocks, gmin, kids).spec_negated().spec_abs(),
        ),
    ensures
        residual_at(now, i, ch, gmin) == S::spec_zero(),
        rail_conductance(ch.shunt_ohms, blocks, gmin, kids).spec_times(now.spec_rail_voltage(i))
            == rail_current_in(feed, ch.shunt_ohms, kids),
{
    let mid = choose|mid: L| #[trigger]
        moved_twice(was, i, ch, gmin, policy, &mid, now, Ok(f));
    let v0 = was.spec_rail_voltage(i);
    let dv = probe_step(v0, policy);
    assert(was.moves(i, v0.spec_plus(dv), &mid, None));
    assert(kids.len() == ch.children@.len());
    law_linear_rails_settle_in_one_update(feed, ch.shunt_ohms, blocks, gmin, kids, v0, dv);
}

/// What a rail feeds to a child through a shunt is what the child's own equation takes
/// in through it, and times the resistance is the voltage between the two.
pub proof fn law_a_child_receives_what_its_parent_feeds<S: Scalar>(v: S, child: S, ohms: S)
    requires
        S::exact(),
        ohms != S::spec_zero(),
    ensures
        fed_current(v, seq![(child, ohms)], 1) == rail_residual(
            v,
            child,
            ohms,
            S::spec_zero(),
            S::spec_zero(),
        ),
        fed_current(v, seq![(child, ohms)], 1).spec_times(ohms) == v.spec_minus(child),
{
    broadcast use group_sums;

    let zero = S::spec_zero();
    let kids = seq![(child, ohms)];
    let i = v.spec_minus(child).spec_over(ohms);
    S::laws(v.spec_minus(child), ohms, ohms);
    assert(fed_current(v, kids, 0) == zero);
    assert(fed_current(v, kids, 1) == zero.spec_plus(i));
    S::laws(child, zero, zero);
    S::laws(zero, child, child);
    let none = Sum::Nothing;
    lemma_same_terms(none.plus(term(0)), term(0), seq![i]);
    lemma_same_terms(term(0).minus(none).plus(none), term(0), seq![i]);
}

/// A Newton update moves the rail against its residual along the slope that the probe
/// measured, or holds it where the residual is flat.
pub proof fn law_an_update_follows_the_probed_slope<S: Scalar>(v0: S, f0: S, f1: S, dv: S)
    requires
        S::exact(),
        dv != S::spec_zero(),
    ensures
        newton_target(v0, f0, f1, dv) == v0 || f1 == f0 || newton_target(
            v0,
            f0,
            f1,
            dv,
        ).spec_minus(v0).spec_times(f1.spec_minus(f0)) == f0.spec_times(dv).spec_negated(),
{
    broadcast use group_sums;

    let rise = f1.spec_minus(f0);
    let slope = rise.spec_over(dv);
    S::laws(rise, dv, dv);
    if f1 != f0 {
        S::laws(f1, f0, f0);
        S::laws(S::spec_zero(), f0, f0);
        S::laws(f0, S::spec_zero(), f0);
        S::laws(dv, S::spec_zero(), dv);
        S::laws(S::spec_zero(), dv, dv);
        assert(rise != S::spec_zero());
        assert(slope != S::spec_zero());
        let q = f0.spec_over(slope);
        S::laws(f0, slope, slope);
        lemma_same_terms(term(0).minus(term(1)).minus(term(0)), term(1).negated(), seq![v0, q]);
        lemma_negated_product(q, rise);
        S::laws(q, slope, dv);
        assert(q.spec_times(rise) == f0.spec_times(dv));
    }
}

} // verus!
