//! Composition of balanced rails with relaxed signals, as a machine.
//!
//! The rails of a group are closed by the exact balance with the signals pinned;
//! the signals are relaxed with the rails held; and the two alternate until the
//! signals stop moving. A group that the balance cannot march has its rails held at
//! their feed, and one relaxation is the answer.
use vstd::prelude::*;

use crate::circuit::{Circuit, Device, NodeId};
use crate::orchestrate::capture::outcome::{
    allowance, allowed, listed_value, nominal, nominal_level, value_of, StiffOutcome,
};
use crate::orchestrate::capture::relax::{residual, series};
use crate::orchestrate::capture::ComposedPolicy;
use crate::orchestrate::grid::{constant_train, shifted_residual, Residual};
use crate::orchestrate::tear::RailTear;
use crate::partition::{Island, Partition};
use crate::scalar::{ordered, Scalar};
use crate::stamp::context::{at_least, frac, raise, ratio};

verus! {

/// Passes of the alternation before it gives up.
pub const MAX_OUTER: usize = 20;

/// Whether every nonlinear island is small enough for the balance to march.
pub open spec fn fragments(islands: Seq<Island>, cap: usize, count: int) -> bool {
    forall|i: int|
        0 <= i < count && !(#[trigger] islands[i]).linear ==> islands[i].devices@.len() <= cap
}

/// Whether a group, torn at its rails and pinned at its signals, falls into blocks
/// that the balance can march.
pub fn balance_group_fragments(part: &Partition, policy: &ComposedPolicy) -> (r: bool)
    ensures
        r == fragments(part.islands@, policy.max_balance_block, part.islands@.len() as int),
{
    let mut i: usize = 0;
    while i < part.islands.len()
        invariant
            i <= part.islands@.len(),
            fragments(part.islands@, policy.max_balance_block, i as int),
        decreases part.islands@.len() - i,
    {
        if !part.islands[i].linear && part.islands[i].devices.len() > policy.max_balance_block {
            assert(!fragments(
                part.islands@,
                policy.max_balance_block,
                part.islands@.len() as int,
            ));
            return false;
        }
        i = i + 1;
    }
    true
}

/// The value that the first ideal source among the devices `from..` puts on a node.
pub open spec fn driven_from<S: Scalar>(
    devices: Seq<Device<S>>,
    at_zero: Seq<S>,
    feed: NodeId,
    from: int,
) -> Option<S>
    decreases devices.len() - from,
{
    if from >= devices.len() {
        None
    } else {
        match devices[from] {
            Device::Vsource { p, n, .. } => if p == feed && n.0 == 0 {
                Some(at_zero[from])
            } else if n == feed && p.0 == 0 {
                Some(at_zero[from].spec_negated())
            } else {
                driven_from(devices, at_zero, feed, from + 1)
            },
            _ => driven_from(devices, at_zero, feed, from + 1),
        }
    }
}

/// The value that an ideal source puts on a feed at time zero, if one does.
/// `at_zero` is the value of each device's source then.
pub fn feed_source_value<S: Scalar>(
    sub: &Circuit<S>,
    at_zero: &Vec<S>,
    feed: NodeId,
) -> (r: Option<S>)
    requires
        at_zero@.len() == sub.devices@.len(),
    ensures
        r == (if feed.0 == 0 {
            Some(S::spec_zero())
        } else {
            driven_from(sub.devices@, at_zero@, feed, 0)
        }),
{
    if feed.is_ground() {
        return Some(S::zero());
    }
    let mut d: usize = 0;
    while d < sub.devices.len()
        invariant
            d <= sub.devices@.len(),
            feed.0 != 0,
            at_zero@.len() == sub.devices@.len(),
            driven_from(sub.devices@, at_zero@, feed, 0) == driven_from(
                sub.devices@,
                at_zero@,
                feed,
                d as int,
            ),
        decreases sub.devices@.len() - d,
    {
        match &sub.devices[d] {
            Device::Vsource { p, n, .. } => {
                if *p == feed && n.is_ground() {
                    return Some(at_zero[d]);
                }
                if *n == feed && p.is_ground() {
                    return Some(at_zero[d].negated());
                }
            },
            _ => {},
        }
        d = d + 1;
    }
    None
}

/// The value listed for a node, where one is.
pub open spec fn seed_at<S>(seeds: Seq<Option<S>>, n: NodeId) -> Option<S> {
    if n.0 < seeds.len() {
        seeds[n.0 as int]
    } else {
        None
    }
}

/// The seed of a node, or zero.
pub open spec fn seed_or_zero<S: Scalar>(seeds: Seq<Option<S>>, n: NodeId) -> S {
    match seed_at(seeds, n) {
        Some(v) => v,
        None => S::spec_zero(),
    }
}

pub fn seed_value<S: Scalar>(seeds: &Vec<Option<S>>, n: NodeId) -> (r: S)
    ensures
        r == seed_or_zero(seeds@, n),
{
    if (n.0 as usize) < seeds.len() {
        match seeds[n.0 as usize] {
            Some(v) => v,
            None => S::zero(),
        }
    } else {
        S::zero()
    }
}

/// One pass over the first `count` rails: a rail without a seed of its own takes
/// that of the rail that feeds it.
pub open spec fn inherited<S: Scalar>(
    seeds: Seq<Option<S>>,
    rails: Seq<RailTear<S>>,
    count: nat,
) -> Seq<Option<S>>
    decreases count,
{
    if count == 0 {
        seeds
    } else {
        let before = inherited(seeds, rails, (count - 1) as nat);
        let rt = rails[count - 1];
        if seed_or_zero(before, rt.rail).spec_is_zero() && seed_at(before, rt.feed) is Some {
            before.update(rt.rail.0 as int, seed_at(before, rt.feed))
        } else {
            before
        }
    }
}

/// Several passes.
pub open spec fn cascaded<S: Scalar>(
    seeds: Seq<Option<S>>,
    rails: Seq<RailTear<S>>,
    times: nat,
) -> Seq<Option<S>>
    decreases times,
{
    if times == 0 {
        seeds
    } else {
        inherited(cascaded(seeds, rails, (times - 1) as nat), rails, rails.len())
    }
}

/// Let cascaded rails inherit the seed of the rail that feeds them, as often as
/// there are rails.
pub fn cascade_seeds<S: Scalar>(seeds: &mut Vec<Option<S>>, rails: &Vec<RailTear<S>>)
    requires
        forall|i: int|
            0 <= i < rails@.len() ==> (#[trigger] rails@[i]).rail.0 < old(seeds)@.len(),
    ensures
        final(seeds)@ == cascaded(
            old(seeds)@,
            rails@,
            if rails@.len() == 0 {
                1
            } else {
                rails@.len()
            },
        ),
        final(seeds)@.len() == old(seeds)@.len(),
{
    let ghost start = seeds@;
    let times: usize = if rails.len() == 0 {
        1
    } else {
        rails.len()
    };
    let mut k: usize = 0;
    while k < times
        invariant
            k <= times,
            seeds@ == cascaded(start, rails@, k as nat),
            seeds@.len() == start.len(),
            forall|i: int| 0 <= i < rails@.len() ==> (#[trigger] rails@[i]).rail.0 < start.len(),
        decreases times - k,
    {
        let ghost before = seeds@;
        let mut i: usize = 0;
        while i < rails.len()
            invariant
                i <= rails@.len(),
                seeds@ == inherited(before, rails@, i as nat),
                seeds@.len() == start.len(),
                forall|i: int|
                    0 <= i < rails@.len() ==> (#[trigger] rails@[i]).rail.0 < start.len(),
            decreases rails@.len() - i,
        {
            let rt = rails[i];
            assert(rails@[i as int].rail.0 < start.len());
            let parent: Option<S> = if (rt.feed.0 as usize) < seeds.len() {
                seeds[rt.feed.0 as usize]
            } else {
                None
            };
            assert(parent == seed_at(seeds@, rt.feed));
            if seed_value(seeds, rt.rail).is_zero() {
                match parent {
                    Some(_) => {
                        seeds.set(rt.rail.0 as usize, parent);
                    },
                    None => {},
                }
            }
            i = i + 1;
        }
        k = k + 1;
    }
}

proof fn lemma_inherited_keeps<S: Scalar>(
    seeds: Seq<Option<S>>,
    rails: Seq<RailTear<S>>,
    count: nat,
    n: NodeId,
)
    requires
        count <= rails.len(),
        forall|i: int| 0 <= i < rails.len() ==> (#[trigger] rails[i]).rail.0 < seeds.len(),
        n.0 < seeds.len(),
        !seed_or_zero(seeds, n).spec_is_zero(),
    ensures
        inherited(seeds, rails, count).len() == seeds.len(),
        inherited(seeds, rails, count)[n.0 as int] == seeds[n.0 as int],
    decreases count,
{
    if count > 0 {
        lemma_inherited_keeps(seeds, rails, (count - 1) as nat, n);
        assert(rails[count - 1].rail.0 < seeds.len());
        if rails[count - 1].rail.0 == n.0 {
            assert(rails[count - 1].rail == n);
        }
    }
}

/// A rail with a seed of its own keeps it however the others inherit.
pub proof fn law_own_seeds_are_kept<S: Scalar>(
    seeds: Seq<Option<S>>,
    rails: Seq<RailTear<S>>,
    times: nat,
    n: NodeId,
)
    requires
        forall|i: int| 0 <= i < rails.len() ==> (#[trigger] rails[i]).rail.0 < seeds.len(),
        n.0 < seeds.len(),
        !seed_or_zero(seeds, n).spec_is_zero(),
    ensures
        cascaded(seeds, rails, times).len() == seeds.len(),
        cascaded(seeds, rails, times)[n.0 as int] == seeds[n.0 as int],
    decreases times,
{
    if times > 0 {
        law_own_seeds_are_kept(seeds, rails, (times - 1) as nat, n);
        let before = cascaded(seeds, rails, (times - 1) as nat);
        lemma_inherited_keeps(before, rails, rails.len(), n);
    }
}

/// What to do next.
#[derive(Clone, Copy, Debug, PartialEq, Eq, Structural)]
pub enum Phase {
    /// Balance the rails with the signals pinned at their trains.
    Balance,
    /// Relax the signals with the rails held at their trains.
    Relax,
    /// Balance once more at the settled trains; that run is the answer.
    Final,
    /// Read the answer.
    Assemble,
    /// The alternation did not settle.
    Refuse,
}

/// The larger of two residuals.
pub open spec fn larger<S: Scalar>(a: Residual<S>, b: Residual<S>) -> Residual<S> {
    match (a, b) {
        (Residual::Volts(x), Residual::Volts(y)) => Residual::Volts(
            if x.spec_less(y) {
                y
            } else {
                x
            },
        ),
        (Residual::Infinite, _) => Residual::Infinite,
        (_, Residual::Infinite) => Residual::Infinite,
        (a, Residual::Unknown) => a,
        (Residual::Unknown, b) => b,
    }
}

fn keep_larger<S: Scalar>(a: Residual<S>, b: Residual<S>) -> (r: Residual<S>)
    ensures
        r == larger(a, b),
{
    match a {
        Residual::Volts(x) => match b {
            Residual::Volts(y) => Residual::Volts(
                if x.less(y) {
                    y
                } else {
                    x
                },
            ),
            Residual::Infinite => Residual::Infinite,
            Residual::Unknown => a,
        },
        Residual::Infinite => Residual::Infinite,
        Residual::Unknown => b,
    }
}

/// How far the first `count` signals moved.
pub open spec fn signal_move<S: Scalar>(
    signals: Seq<NodeId>,
    before: Seq<Seq<S>>,
    after: Seq<Seq<S>>,
    count: nat,
) -> Residual<S>
    decreases count,
{
    if count == 0 {
        Residual::Volts(S::spec_zero())
    } else {
        larger(
            signal_move(signals, before, after, (count - 1) as nat),
            residual(before[signals[count - 1].0 as int], after[count - 1]),
        )
    }
}

/// The movement a signal may keep.
pub open spec fn still<S: Scalar>(reltol: S, rest: S) -> S {
    let vnom = nominal(rest);
    at_least(allowed(reltol, vnom), frac::<S>(1, 1_000_000).spec_times(vnom))
}

/// The largest of these over the first `count` signals.
pub open spec fn bar<S: Scalar>(signals: Seq<NodeId>, rest: Seq<S>, reltol: S, count: nat) -> S
    decreases count,
{
    if count == 0 {
        S::spec_zero()
    } else {
        let top = bar(signals, rest, reltol, (count - 1) as nat);
        let own = still(reltol, listed_value(rest, signals[count - 1]));
        if top.spec_less(own) {
            own
        } else {
            top
        }
    }
}

/// The trains with new ones at the first `count` signals.
pub open spec fn retrained<S>(
    trains: Seq<Seq<S>>,
    nodes: Seq<NodeId>,
    new: Seq<Seq<S>>,
    count: nat,
) -> Seq<Seq<S>>
    decreases count,
{
    if count == 0 {
        trains
    } else {
        retrained(trains, nodes, new, (count - 1) as nat).update(
            nodes[count - 1].0 as int,
            new[count - 1],
        )
    }
}

/// The values with those of the first `count` outcomes at their nodes.
pub open spec fn noted<S, T>(
    values: Seq<T>,
    outcomes: Seq<StiffOutcome<S>>,
    field: spec_fn(StiffOutcome<S>) -> T,
    count: nat,
) -> Seq<T>
    decreases count,
{
    if count == 0 {
        values
    } else {
        noted(values, outcomes, field, (count - 1) as nat).update(
            outcomes[count - 1].node.0 as int,
            field(outcomes[count - 1]),
        )
    }
}

/// An alternation under way.
#[derive(Debug)]
pub struct Composed<S> {
    pub signals: Vec<NodeId>,
    pub rails: Vec<RailTear<S>>,
    /// Whether the balance marches the whole group; else the rails are held.
    pub whole: bool,
    pub reltol: S,
    pub bootstrapped: bool,
    /// The rest value of each node.
    pub rest: Vec<S>,
    /// The seed of each rail.
    pub seeds: Vec<Option<S>>,
    /// The train of each node.
    pub trains: Vec<Vec<S>>,
    pub sag: Vec<Residual<S>>,
    pub growth: Vec<usize>,
    pub outer: usize,
    pub phase: Phase,
}

/// What of an alternation changes.
pub struct ComposedState<S> {
    pub trains: Seq<Seq<S>>,
    pub sag: Seq<Residual<S>>,
    pub growth: Seq<usize>,
    pub outer: nat,
    pub phase: Phase,
}

/// The nodes of rails.
pub open spec fn rail_nodes<S>(rails: Seq<RailTear<S>>) -> Seq<NodeId> {
    Seq::new(rails.len(), |i: int| rails[i].rail)
}

/// Where a node's train starts: a rail at its seed, any other node at rest.
pub open spec fn start_value<S: Scalar>(seeds: Seq<Option<S>>, rest: Seq<S>, n: int) -> S {
    if n < seeds.len() && seeds[n] is Some {
        seeds[n]->0
    } else if n < rest.len() {
        rest[n]
    } else {
        S::spec_zero()
    }
}

impl<S: Scalar> ComposedState<S> {
    /// After the rails were balanced.
    pub open spec fn after_balance(
        self,
        rails: Seq<NodeId>,
        trains: Seq<Seq<S>>,
        signals: nat,
    ) -> ComposedState<S> {
        ComposedState {
            trains: retrained(self.trains, rails, trains, rails.len()),
            phase: if signals == 0 {
                Phase::Final
            } else {
                Phase::Relax
            },
            ..self
        }
    }

    /// After the signals were relaxed.
    pub open spec fn after_relax(
        self,
        signals: Seq<NodeId>,
        trains: Seq<Seq<S>>,
        outcomes: Seq<StiffOutcome<S>>,
        whole: bool,
        limit: S,
    ) -> ComposedState<S> {
        let moved = signal_move(signals, self.trains, trains, signals.len());
        let settled = moved matches Residual::Volts(d) && d.spec_at_most(limit);
        let last = self.outer + 1 >= MAX_OUTER;
        ComposedState {
            trains: retrained(self.trains, signals, trains, signals.len()),
            sag: noted(self.sag, outcomes, |o: StiffOutcome<S>| o.sag_v, outcomes.len()),
            growth: noted(
                self.growth,
                outcomes,
                |o: StiffOutcome<S>| o.capture_growth,
                outcomes.len(),
            ),
            outer: if whole && !settled && !last {
                self.outer + 1
            } else {
                self.outer
            },
            phase: if !whole {
                Phase::Assemble
            } else if settled {
                Phase::Final
            } else if last {
                Phase::Refuse
            } else {
                Phase::Balance
            },
        }
    }
}

impl<S: Scalar> Composed<S> {
    pub open spec fn state(&self) -> ComposedState<S> {
        ComposedState {
            trains: series(self.trains@),
            sag: self.sag@,
            growth: self.growth@,
            outer: self.outer as nat,
            phase: self.phase,
        }
    }

    pub open spec fn wf(&self) -> bool {
        &&& self.trains@.len() == self.sag@.len() == self.growth@.len()
        &&& forall|i: int|
            0 <= i < self.signals@.len() ==> (#[trigger] self.signals@[i]).0 < self.trains@.len()
        &&& forall|i: int|
            0 <= i < self.rails@.len() ==> (#[trigger] self.rails@[i]).rail.0 < self.trains@.len()
        &&& self.outer < MAX_OUTER
        &&& self.phase is Relax ==> self.signals@.len() > 0
        &&& self.phase is Balance || self.phase is Final ==> self.whole
    }

    /// What stays the same.
    pub open spec fn same_group(&self, other: &Self) -> bool {
        &&& self.signals == other.signals
        &&& self.rails == other.rails
        &&& self.whole == other.whole
        &&& self.reltol == other.reltol
        &&& self.bootstrapped == other.bootstrapped
        &&& self.rest == other.rest
        &&& self.seeds == other.seeds
    }

    /// Begin with signals at rest and rails at their seeds.
    pub fn new(
        signals: Vec<NodeId>,
        rails: Vec<RailTear<S>>,
        whole: bool,
        reltol: S,
        bootstrapped: bool,
        rest: Vec<S>,
        seeds: Vec<Option<S>>,
        nodes: usize,
        samples: usize,
    ) -> (r: Self)
        requires
            forall|i: int| 0 <= i < signals@.len() ==> (#[trigger] signals@[i]).0 < nodes,
            forall|i: int| 0 <= i < rails@.len() ==> (#[trigger] rails@[i]).rail.0 < nodes,
        ensures
            r.wf(),
            r.signals == signals,
            r.rails == rails,
            r.whole == whole,
            r.reltol == reltol,
            r.bootstrapped == bootstrapped,
            r.rest == rest,
            r.seeds == seeds,
            r.trains@.len() == nodes,
            forall|n: int|
                0 <= n < nodes ==> (#[trigger] r.trains@[n])@ == Seq::new(
                    samples as nat,
                    |k: int| start_value(seeds@, rest@, n),
                ),
            r.sag@ == Seq::new(nodes as nat, |n: int| Residual::Volts(S::spec_zero())),
            r.growth@ == Seq::new(nodes as nat, |n: int| 0usize),
            r.outer == 0,
            r.phase == (if whole {
                Phase::Balance
            } else if signals@.len() == 0 {
                Phase::Assemble
            } else {
                Phase::Relax
            }),
    {
        let mut trains: Vec<Vec<S>> = Vec::new();
        let mut sag: Vec<Residual<S>> = Vec::new();
        let mut growth: Vec<usize> = Vec::new();
        let mut n: usize = 0;
        while n < nodes
            invariant
                n <= nodes,
                trains@.len() == n,
                sag@ == Seq::new(n as nat, |i: int| Residual::Volts(S::spec_zero())),
                growth@ == Seq::new(n as nat, |i: int| 0usize),
                forall|i: int|
                    0 <= i < n ==> (#[trigger] trains@[i])@ == Seq::new(
                        samples as nat,
                        |k: int| start_value(seeds@, rest@, i),
                    ),
            decreases nodes - n,
        {
            let level: S = if n < rest.len() {
                rest[n]
            } else {
                S::zero()
            };
            let v: S = if n < seeds.len() {
                match seeds[n] {
                    Some(v) => v,
                    None => level,
                }
            } else {
                level
            };
            trains.push(constant_train(v, samples));
            sag.push(Residual::Volts(S::zero()));
            growth.push(0);
            assert(sag@ =~= Seq::new((n + 1) as nat, |i: int| Residual::Volts(S::spec_zero())));
            assert(growth@ =~= Seq::new((n + 1) as nat, |i: int| 0usize));
            n = n + 1;
        }
        let phase = if whole {
            Phase::Balance
        } else if signals.len() == 0 {
            Phase::Assemble
        } else {
            Phase::Relax
        };
        Composed {
            signals,
            rails,
            whole,
            reltol,
            bootstrapped,
            rest,
            seeds,
            trains,
            sag,
            growth,
            outer: 0,
            phase,
        }
    }

    /// Take the rail trains of a balance.
    pub fn balanced(&mut self, trains: Vec<Vec<S>>)
        requires
            old(self).wf(),
            old(self).phase is Balance,
            trains@.len() == old(self).rails@.len(),
        ensures
            final(self).wf(),
            final(self).same_group(old(self)),
            final(self).state() == old(self).state().after_balance(
                rail_nodes(old(self).rails@),
                series(trains@),
                old(self).signals@.len(),
            ),
    {
        let ghost nodes = rail_nodes(self.rails@);
        let ghost given = series(trains@);
        let ghost before = series(self.trains@);
        let mut trains: Vec<Vec<S>> = trains;
        let total: usize = self.rails.len();
        let mut i: usize = 0;
        while i < total
            invariant
                i <= total == self.rails@.len(),
                nodes == rail_nodes(self.rails@),
                given.len() == total,
                trains@.len() == total,
                self.wf(),
                self.same_group(old(self)),
                self.phase == old(self).phase,
                self.outer == old(self).outer,
                self.sag == old(self).sag,
                self.growth == old(self).growth,
                forall|k: int| i <= k < total ==> (#[trigger] trains@[k])@ == given[k],
                series(self.trains@) == retrained(before, nodes, given, i as nat),
            decreases total - i,
        {
            let n: usize = self.rails[i].rail.0 as usize;
            assert(self.rails@[i as int].rail.0 < self.trains@.len());
            assert(trains@[i as int]@ == given[i as int]);
            let ghost was = series(self.trains@);
            let mut new: Vec<S> = Vec::new();
            std::mem::swap(&mut trains[i], &mut new);
            self.trains.set(n, new);
            assert(series(self.trains@) =~= was.update(n as int, given[i as int]));
            i = i + 1;
        }
        self.phase = if self.signals.len() == 0 {
            Phase::Final
        } else {
            Phase::Relax
        };
    }

    /// The movement that settles the alternation.
    fn limit(&self) -> (r: S)
        ensures
            r == bar(self.signals@, self.rest@, self.reltol, self.signals@.len()),
    {
        let mut top: S = S::zero();
        let mut i: usize = 0;
        while i < self.signals.len()
            invariant
                i <= self.signals@.len(),
                top == bar(self.signals@, self.rest@, self.reltol, i as nat),
            decreases self.signals@.len() - i,
        {
            let vnom: S = nominal_level(value_of(&self.rest, self.signals[i]));
            let own: S = raise(
                allowance(self.reltol, vnom),
                ratio::<S>(1, 1_000_000).times(vnom),
            );
            if top.less(own) {
                top = own;
            }
            i = i + 1;
        }
        top
    }

    /// Take the signal trains and the outcomes of a relaxation.
    pub fn relaxed(&mut self, trains: Vec<Vec<S>>, outcomes: &Vec<StiffOutcome<S>>)
        requires
            old(self).wf(),
            old(self).phase is Relax,
            trains@.len() == old(self).signals@.len(),
            forall|i: int|
                0 <= i < outcomes@.len() ==> (#[trigger] outcomes@[i]).node.0 < old(
                    self,
                ).trains@.len(),
        ensures
            final(self).wf(),
            final(self).same_group(old(self)),
            final(self).state() == old(self).state().after_relax(
                old(self).signals@,
                series(trains@),
                outcomes@,
                old(self).whole,
                bar(
                    old(self).signals@,
                    old(self).rest@,
                    old(self).reltol,
                    old(self).signals@.len(),
                ),
            ),
    {
        let ghost given = series(trains@);
        let ghost before = series(self.trains@);
        let total: usize = self.signals.len();
        let mut moved: Residual<S> = Residual::Volts(S::zero());
        let mut i: usize = 0;
        while i < total
            invariant
                i <= total == self.signals@.len(),
                given == series(trains@),
                trains@.len() == total,
                before == series(self.trains@),
                self.wf(),
                moved == signal_move(self.signals@, before, given, i as nat),
            decreases total - i,
        {
            let n: usize = self.signals[i].0 as usize;
            assert(self.signals@[i as int].0 < self.trains@.len());
            assert(self.trains@[n as int]@ == before[n as int]);
            moved = keep_larger(moved, shifted_residual(&self.trains[n], &trains[i]));
            i = i + 1;
        }
        let limit: S = self.limit();
        self.retrain(trains);
        self.note(outcomes);
        let settled: bool = match moved {
            Residual::Volts(d) => d.at_most(limit),
            _ => false,
        };
        if !self.whole {
            self.phase = Phase::Assemble;
        } else if settled {
            self.phase = Phase::Final;
        } else if self.outer + 1 >= MAX_OUTER {
            self.phase = Phase::Refuse;
        } else {
            self.outer = self.outer + 1;
            self.phase = Phase::Balance;
        }
    }

    fn retrain(&mut self, trains: Vec<Vec<S>>)
        requires
            old(self).wf(),
            trains@.len() == old(self).signals@.len(),
        ensures
            final(self).wf(),
            final(self).same_group(old(self)),
            final(self).phase == old(self).phase,
            final(self).outer == old(self).outer,
            final(self).sag == old(self).sag,
            final(self).growth == old(self).growth,
            final(self).trains@.len() == old(self).trains@.len(),
            series(final(self).trains@) == retrained(
                series(old(self).trains@),
                old(self).signals@,
                series(trains@),
                old(self).signals@.len(),
            ),
    {
        let ghost given = series(trains@);
        let ghost before = series(self.trains@);
        let mut trains: Vec<Vec<S>> = trains;
        let total: usize = self.signals.len();
        let mut i: usize = 0;
        while i < total
            invariant
                i <= total == self.signals@.len(),
                given.len() == total,
                trains@.len() == total,
                self.wf(),
                self.same_group(old(self)),
                self.phase == old(self).phase,
                self.outer == old(self).outer,
                self.sag == old(self).sag,
                self.growth == old(self).growth,
                self.trains@.len() == old(self).trains@.len(),
                forall|k: int| i <= k < total ==> (#[trigger] trains@[k])@ == given[k],
                series(self.trains@) == retrained(before, self.signals@, given, i as nat),
            decreases total - i,
        {
            let n: usize = self.signals[i].0 as usize;
            assert(self.signals@[i as int].0 < self.trains@.len());
            assert(trains@[i as int]@ == given[i as int]);
            let ghost was = series(self.trains@);
            let mut new: Vec<S> = Vec::new();
            std::mem::swap(&mut trains[i], &mut new);
            self.trains.set(n, new);
            assert(series(self.trains@) =~= was.update(n as int, given[i as int]));
            i = i + 1;
        }
    }

    fn note(&mut self, outcomes: &Vec<StiffOutcome<S>>)
        requires
            old(self).wf(),
            forall|i: int|
                0 <= i < outcomes@.len() ==> (#[trigger] outcomes@[i]).node.0 < old(
                    self,
                ).trains@.len(),
        ensures
            final(self).wf(),
            final(self).same_group(old(self)),
            final(self).phase == old(self).phase,
            final(self).outer == old(self).outer,
            final(self).trains == old(self).trains,
            final(self).sag@ == noted(
                old(self).sag@,
                outcomes@,
                |o: StiffOutcome<S>| o.sag_v,
                outcomes@.len(),
            ),
            final(self).growth@ == noted(
                old(self).growth@,
                outcomes@,
                |o: StiffOutcome<S>| o.capture_growth,
                outcomes@.len(),
            ),
    {
        let ghost sag = |o: StiffOutcome<S>| o.sag_v;
        let ghost grew = |o: StiffOutcome<S>| o.capture_growth;
        let mut i: usize = 0;
        while i < outcomes.len()
            invariant
                i <= outcomes@.len(),
                self.wf(),
                self.same_group(old(self)),
                self.phase == old(self).phase,
                self.outer == old(self).outer,
                self.trains == old(self).trains,
                forall|k: int|
                    0 <= k < outcomes@.len() ==> (#[trigger] outcomes@[k]).node.0
                        < self.trains@.len(),
                sag == (|o: StiffOutcome<S>| o.sag_v),
                grew == (|o: StiffOutcome<S>| o.capture_growth),
                self.sag@ == noted(old(self).sag@, outcomes@, sag, i as nat),
                self.growth@ == noted(old(self).growth@, outcomes@, grew, i as nat),
            decreases outcomes@.len() - i,
        {
            let o = outcomes[i];
            let n: usize = o.node.0 as usize;
            assert(outcomes@[i as int].node.0 < self.trains@.len());
            self.sag.set(n, o.sag_v);
            self.growth.set(n, o.capture_growth);
            i = i + 1;
        }
    }
}

/// The alternation ends: every relaxation brings it nearer to its last pass, or
/// leaves it with no more passes to make.
pub proof fn law_alternation_ends<S: Scalar>(
    st: ComposedState<S>,
    signals: Seq<NodeId>,
    trains: Seq<Seq<S>>,
    outcomes: Seq<StiffOutcome<S>>,
    whole: bool,
    limit: S,
)
    requires
        st.outer < MAX_OUTER,
    ensures
        ({
            let after = st.after_relax(signals, trains, outcomes, whole, limit);
            after.phase is Balance ==> st.outer < after.outer < MAX_OUTER
        }),
        ({
            let after = st.after_relax(signals, trains, outcomes, whole, limit);
            after.phase is Final ==> (signal_move(
                signals,
                st.trains,
                trains,
                signals.len(),
            ) matches Residual::Volts(d) && d.spec_at_most(limit))
        }),
        !whole ==> st.after_relax(signals, trains, outcomes, whole, limit).phase is Assemble,
{
}

/// The larger of two residuals is one of them and is not below either; one beyond any
/// number prevails, and one never measured yields.
pub proof fn law_the_larger_residual_prevails<S: Scalar>(a: Residual<S>, b: Residual<S>)
    requires
        ordered::<S>(),
    ensures
        larger(a, b) == a || larger(a, b) == b,
        a is Infinite || b is Infinite ==> larger(a, b) is Infinite,
        a is Unknown ==> larger(a, b) == b,
        b is Unknown ==> larger(a, b) == a,
        a is Volts && b is Volts ==> larger(a, b) is Volts && !larger(
            a,
            b,
        )->Volts_0.spec_less(a->Volts_0) && !larger(a, b)->Volts_0.spec_less(b->Volts_0),
{
}

/// Whether a source holds a node at a voltage against ground.
pub open spec fn holds_at<S: Scalar>(dev: Device<S>, value: S, node: NodeId, v: S) -> bool {
    dev matches Device::Vsource { p, n, .. } && (p == node && n.0 == 0 && v == value || n == node
        && p.0 == 0 && v == value.spec_negated())
}

/// A feed is driven where some source holds it against ground, and then at the voltage
/// that a source holds it at: its value on the positive side, the negative of it on the
/// other.
pub proof fn law_a_feed_is_held_by_its_source<S: Scalar>(
    devices: Seq<Device<S>>,
    at_zero: Seq<S>,
    feed: NodeId,
    from: int,
)
    requires
        0 <= from <= devices.len(),
    ensures
        match driven_from(devices, at_zero, feed, from) {
            Some(v) => exists|k: int|
                from <= k < devices.len() && #[trigger] holds_at(
                    devices[k],
                    at_zero[k],
                    feed,
                    v,
                ),
            None => forall|k: int, v: S|
                from <= k < devices.len() ==> !(#[trigger] holds_at(
                    devices[k],
                    at_zero[k],
                    feed,
                    v,
                )),
        },
    decreases devices.len() - from,
{
    if from < devices.len() {
        law_a_feed_is_held_by_its_source(devices, at_zero, feed, from + 1);
        match driven_from(devices, at_zero, feed, from) {
            Some(v) => {
                if holds_at(devices[from], at_zero[from], feed, v) {
                } else {
                    let k = choose|k: int|
                        from + 1 <= k < devices.len() && #[trigger] holds_at(
                            devices[k],
                            at_zero[k],
                            feed,
                            v,
                        );
                    assert(holds_at(devices[k], at_zero[k], feed, v));
                }
            },
            None => {},
        }
    }
}

} // verus!
