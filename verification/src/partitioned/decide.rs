//! Whether and how a circuit is split for a run.
use vstd::prelude::*;

use crate::circuit::{Circuit, Device, DeviceId, NodeId};
use crate::options::{DcInit, ParallelPolicy, Partitioning, StepControl};
use crate::orchestrate::tear::RailTear;
use crate::partition::analyze::{
    holds_devices, is_partition, keys, lemma_members, members, Island, Partition,
};
use crate::partition::components::{component_labels, pinned_nodes};
use crate::scalar::Scalar;

verus! {

/// A linear island of at most this many states is cheaper advanced in closed form
/// than solved.
pub const SMALL_ISLAND_STATES: usize = 48;

/// A nonlinear block of more devices than this means that a tear did not fragment
/// the core.
pub const TEAR_MAX_BLOCK_DEVICES: usize = 600;

/// From this many islands on a split always pays.
pub const MANY_ISLANDS: usize = 4;

/// From this many nonlinear islands on threads pay.
pub const PAR_MIN_NONLINEAR_ISLANDS: usize = 32;

/// The most threads that are chosen unasked.
pub const PAR_MAX_THREADS: usize = 4;

/// The threads to solve islands on; none means one island after the other. Unasked,
/// a quarter of the processors, at least two and at most four.
pub open spec fn threads(policy: ParallelPolicy, nonlinear: nat, available: nat) -> Option<nat> {
    match policy {
        ParallelPolicy::Off => None,
        ParallelPolicy::Threads(n) => Some(
            if n < 1 {
                1
            } else {
                n as nat
            },
        ),
        ParallelPolicy::Auto => if nonlinear < PAR_MIN_NONLINEAR_ISLANDS || available < 2 {
            None
        } else if available / 4 < 2 {
            Some(2)
        } else if available / 4 > PAR_MAX_THREADS {
            Some(PAR_MAX_THREADS as nat)
        } else {
            Some(available / 4)
        },
    }
}

/// The threads to solve `nonlinear` islands on, where `available` processors are
/// there.
pub fn pool_size(policy: ParallelPolicy, nonlinear: usize, available: usize) -> (r: Option<usize>)
    ensures
        match threads(policy, nonlinear as nat, available as nat) {
            Some(n) => r matches Some(k) && k == n,
            None => r is None,
        },
{
    match policy {
        ParallelPolicy::Off => None,
        ParallelPolicy::Threads(n) => Some(
            if n < 1 {
                1
            } else {
                n
            },
        ),
        ParallelPolicy::Auto => {
            if nonlinear < PAR_MIN_NONLINEAR_ISLANDS || available < 2 {
                return None;
            }
            let quarter: usize = available / 4;
            if quarter < 2 {
                Some(2)
            } else if quarter > PAR_MAX_THREADS {
                Some(PAR_MAX_THREADS)
            } else {
                Some(quarter)
            }
        },
    }
}

/// How many of the first `count` listed devices are capacitors or inductors.
pub open spec fn states_in<S>(devices: Seq<Device<S>>, ids: Seq<DeviceId>, count: nat) -> nat
    decreases count,
{
    if count == 0 {
        0
    } else {
        let dev = devices[ids[count - 1].0 as int];
        states_in(devices, ids, (count - 1) as nat) + if dev is Capacitor || dev is Inductor {
            1nat
        } else {
            0nat
        }
    }
}

/// How many reactive states an island has.
pub fn count_states<S: Scalar>(circuit: &Circuit<S>, isl: &Island) -> (r: usize)
    requires
        forall|k: int|
            0 <= k < isl.devices@.len() ==> (#[trigger] isl.devices@[k]).0 < circuit.devices@.len(),
    ensures
        r == states_in(circuit.devices@, isl.devices@, isl.devices@.len()),
{
    let mut n: usize = 0;
    let mut k: usize = 0;
    while k < isl.devices.len()
        invariant
            k <= isl.devices@.len(),
            forall|k: int|
                0 <= k < isl.devices@.len() ==> (#[trigger] isl.devices@[k]).0
                    < circuit.devices@.len(),
            n <= k,
            n == states_in(circuit.devices@, isl.devices@, k as nat),
        decreases isl.devices@.len() - k,
    {
        match &circuit.devices[isl.devices[k].0 as usize] {
            Device::Capacitor { .. } => {
                n = n + 1;
            },
            Device::Inductor { .. } => {
                n = n + 1;
            },
            _ => {},
        }
        k = k + 1;
    }
    n
}

/// The most devices of a nonlinear island among the first `count`.
pub open spec fn largest_block(islands: Seq<Island>, count: nat) -> nat
    decreases count,
{
    if count == 0 {
        0
    } else {
        let rest = largest_block(islands, (count - 1) as nat);
        let isl = islands[count - 1];
        if !isl.linear && isl.devices@.len() > rest {
            isl.devices@.len()
        } else {
            rest
        }
    }
}

fn find_largest_block(islands: &Vec<Island>) -> (r: usize)
    ensures
        r == largest_block(islands@, islands@.len()),
{
    let mut most: usize = 0;
    let mut k: usize = 0;
    while k < islands.len()
        invariant
            k <= islands@.len(),
            most == largest_block(islands@, k as nat),
        decreases islands@.len() - k,
    {
        if !islands[k].linear && islands[k].devices.len() > most {
            most = islands[k].devices.len();
        }
        k = k + 1;
    }
    most
}

/// The most states of a linear island among the first `count`.
pub open spec fn largest_linear<S>(devices: Seq<Device<S>>, islands: Seq<Island>, count: nat) -> nat
    decreases count,
{
    if count == 0 {
        0
    } else {
        let rest = largest_linear(devices, islands, (count - 1) as nat);
        let isl = islands[count - 1];
        let states = states_in(devices, isl.devices@, isl.devices@.len());
        if isl.linear && states > rest {
            states
        } else {
            rest
        }
    }
}

/// Whether every island's devices are of the circuit.
pub open spec fn islands_within<S>(devices: Seq<Device<S>>, islands: Seq<Island>) -> bool {
    forall|i: int, k: int|
        0 <= i < islands.len() && 0 <= k < islands[i].devices@.len() ==> (
        #[trigger] islands[i].devices@[k]).0 < devices.len()
}

fn find_largest_linear<S: Scalar>(circuit: &Circuit<S>, islands: &Vec<Island>) -> (r: usize)
    requires
        islands_within(circuit.devices@, islands@),
    ensures
        r == largest_linear(circuit.devices@, islands@, islands@.len()),
{
    let mut most: usize = 0;
    let mut k: usize = 0;
    while k < islands.len()
        invariant
            k <= islands@.len(),
            islands_within(circuit.devices@, islands@),
            most == largest_linear(circuit.devices@, islands@, k as nat),
        decreases islands@.len() - k,
    {
        let states = count_states(circuit, &islands[k]);
        if islands[k].linear && states > most {
            most = states;
        }
        k = k + 1;
    }
    most
}

/// Whether a device is a diode.
pub open spec fn has_diode<S>(devices: Seq<Device<S>>) -> bool {
    exists|d: int| 0 <= d < devices.len() && #[trigger] devices[d] is Diode
}

fn any_diode<S: Scalar>(circuit: &Circuit<S>) -> (r: bool)
    ensures
        r == has_diode(circuit.devices@),
{
    let mut d: usize = 0;
    while d < circuit.devices.len()
        invariant
            d <= circuit.devices@.len(),
            forall|j: int| 0 <= j < d ==> !(#[trigger] circuit.devices@[j] is Diode),
        decreases circuit.devices@.len() - d,
    {
        match &circuit.devices[d] {
            Device::Diode { .. } => {
                assert(circuit.devices@[d as int] is Diode);
                return true;
            },
            _ => {},
        }
        d = d + 1;
    }
    false
}

/// Whether some island is linear and not empty.
pub open spec fn some_linear(islands: Seq<Island>) -> bool {
    exists|i: int|
        0 <= i < islands.len() && (#[trigger] islands[i]).linear && islands[i].devices@.len() > 0
}

/// Whether a split is worth its cost: a tear fragments the core, there are many
/// islands, or a small linear island can be advanced in closed form.
pub open spec fn worthwhile<S>(devices: Seq<Device<S>>, p: Partition, torn: bool) -> bool {
    ||| torn
    ||| p.islands@.len() >= MANY_ISLANDS
    ||| some_linear(p.islands@) && largest_linear(devices, p.islands@, p.islands@.len())
        <= SMALL_ISLAND_STATES
}

/// Whether a nonlinear block is too large to be solved on its own.
pub open spec fn oversized(p: Partition) -> bool {
    largest_block(p.islands@, p.islands@.len()) > TEAR_MAX_BLOCK_DEVICES
}

/// The partition to run, with the rails torn in it.
#[derive(Debug)]
pub struct Split<S> {
    pub partition: Partition,
    pub tears: Vec<RailTear<S>>,
}

/// Decide on a split, given the partition with the circuit's shunt-fed rails torn.
///
/// None means that the circuit runs undivided: where splitting is off, where steps
/// are not fixed, where an oversized block holds diodes (its operating point needs
/// the undivided solve), and where a split is not worth its cost. Tears that leave
/// an oversized block are dropped.
pub fn choose_partition<S: Scalar>(
    circuit: &Circuit<S>,
    partitioning: Partitioning,
    step: StepControl<S>,
    torn: Partition,
    tears: Vec<RailTear<S>>,
) -> (r: Option<Split<S>>)
    requires
        circuit.wf(),
        circuit.spec_max_node() < usize::MAX,
        islands_within(circuit.devices@, torn.islands@),
    ensures
        match r {
            Some(split) => {
                let devices = circuit.devices@;
                &&& partitioning != Partitioning::Off
                &&& step is Fixed
                &&& !(oversized(torn) && has_diode(devices))
                &&& if tears@.len() > 0 && oversized(torn) {
                    split.tears@.len() == 0 && is_partition(
                        devices,
                        circuit.spec_max_node() as nat,
                        split.partition,
                    )
                } else {
                    split.partition == torn && split.tears == tears
                }
                &&& worthwhile(devices, split.partition, split.tears@.len() > 0)
            },
            None => partitioning == Partitioning::Off || step is Adaptive || (oversized(torn)
                && has_diode(circuit.devices@)) || (!(tears@.len() > 0 && oversized(torn))
                && !worthwhile(circuit.devices@, torn, tears@.len() > 0)) || (tears@.len() > 0
                && oversized(torn) && exists|p: Partition| #[trigger]
                is_partition(circuit.devices@, circuit.spec_max_node() as nat, p) && !worthwhile(
                    circuit.devices@,
                    p,
                    false,
                )),
        },
{
    if partitioning == Partitioning::Off {
        return None;
    }
    match step {
        StepControl::Fixed { .. } => {},
        StepControl::Adaptive { .. } => {
            return None;
        },
    }
    let largest = find_largest_block(&torn.islands);
    let big: bool = largest > TEAR_MAX_BLOCK_DEVICES;
    let fall_back: bool = tears.len() > 0 && big;
    let ghost given = torn;
    let ghost given_tears = tears;
    let mut partition = torn;
    let mut kept = tears;
    if fall_back {
        partition = Partition::analyze(circuit);
        kept = Vec::new();
        proof {
            lemma_partition_within(circuit.devices@, circuit.spec_max_node() as nat, partition);
        }
    }
    if big && any_diode(circuit) {
        return None;
    }
    let most_states = find_largest_linear(circuit, &partition.islands);
    let small: bool = partition.has_linear_island() && most_states <= SMALL_ISLAND_STATES;
    if kept.len() == 0 && partition.islands.len() < MANY_ISLANDS && !small {
        return None;
    }
    Some(Split { partition, tears: kept })
}

proof fn lemma_partition_within<S>(devices: Seq<Device<S>>, n: nat, p: Partition)
    requires
        devices.len() <= u32::MAX,
        is_partition(devices, n, p),
    ensures
        islands_within(devices, p.islands@),
{
    let pinned = pinned_nodes(devices, n);
    let labels = component_labels(devices, n);
    let ks = keys(devices, pinned, labels, n + 1);
    assert forall|i: int, k: int|
        0 <= i < p.islands@.len() && 0 <= k < p.islands@[i].devices@.len() implies (
    #[trigger] p.islands@[i].devices@[k]).0 < devices.len() by {
        lemma_members(devices, pinned, labels, ks[i], devices.len());
        let ids = members(devices, pinned, labels, ks[i], devices.len());
        assert(holds_devices(devices, ids, p.islands@[i]));
        assert(ids[k].0 < devices.len());
    }
}

/// Whether a linear island is to be reduced to its states: one that loads a torn
/// rail is solved as a block, so that the current it draws can be read.
pub open spec fn reducible(isl: Island, rails: Seq<NodeId>) -> bool {
    isl.linear && forall|k: int|
        0 <= k < isl.boundary_in@.len() ==> !rails.contains(#[trigger] isl.boundary_in@[k])
}

/// The torn rails.
pub open spec fn rails_of<S>(tears: Seq<RailTear<S>>) -> Seq<NodeId> {
    Seq::new(tears.len(), |k: int| tears[k].rail)
}

/// The torn rails, in turn.
pub fn torn_rails<S: Scalar>(tears: &Vec<RailTear<S>>) -> (r: Vec<NodeId>)
    ensures
        r@ == rails_of(tears@),
{
    let mut out: Vec<NodeId> = Vec::new();
    let mut k: usize = 0;
    while k < tears.len()
        invariant
            k <= tears@.len(),
            out@ == rails_of(tears@).take(k as int),
        decreases tears@.len() - k,
    {
        let ghost all = rails_of(tears@);
        out.push(tears[k].rail);
        assert(all.take(k + 1) =~= all.take(k as int).push(all[k as int]));
        k = k + 1;
    }
    assert(rails_of(tears@).take(k as int) =~= rails_of(tears@));
    out
}

/// Whether an island is to be reduced to its states.
pub fn is_reducible(isl: &Island, rails: &Vec<NodeId>) -> (r: bool)
    ensures
        r == reducible(*isl, rails@),
{
    if !isl.linear {
        return false;
    }
    let mut k: usize = 0;
    while k < isl.boundary_in.len()
        invariant
            k <= isl.boundary_in@.len(),
            forall|j: int| 0 <= j < k ==> !rails@.contains(#[trigger] isl.boundary_in@[j]),
        decreases isl.boundary_in@.len() - k,
    {
        if listed(rails, isl.boundary_in[k]) {
            assert(rails@.contains(isl.boundary_in@[k as int]));
            return false;
        }
        k = k + 1;
    }
    true
}

/// Whether a node is listed.
pub fn listed(nodes: &Vec<NodeId>, n: NodeId) -> (r: bool)
    ensures
        r == nodes@.contains(n),
{
    let mut k: usize = 0;
    while k < nodes.len()
        invariant
            k <= nodes@.len(),
            forall|j: int| 0 <= j < k ==> #[trigger] nodes@[j] != n,
        decreases nodes@.len() - k,
    {
        if nodes[k] == n {
            assert(nodes@[k as int] == n);
            return true;
        }
        k = k + 1;
    }
    false
}

/// Whether a partition that was decided on elsewhere can be run split: steps are
/// fixed, and the run starts at an operating point.
pub fn accepts_partition<S: Scalar>(step: StepControl<S>, dc_init: DcInit) -> (r: bool)
    ensures
        r == (step is Fixed && dc_init == DcInit::Solve),
{
    match step {
        StepControl::Fixed { .. } => dc_init == DcInit::Solve,
        StepControl::Adaptive { .. } => false,
    }
}

/// Threads are taken unasked from thirty-two nonlinear islands and two processors on,
/// and then two to four of them: never more than a quarter of the processors beyond the
/// first two. Asked for, as many as were asked, one at least.
pub proof fn law_threads_are_few(nonlinear: nat, available: nat, n: usize)
    ensures
        threads(ParallelPolicy::Off, nonlinear, available) is None,
        threads(ParallelPolicy::Auto, nonlinear, available) is None <==> nonlinear < 32
            || available < 2,
        threads(ParallelPolicy::Auto, nonlinear, available) matches Some(k) ==> 2 <= k <= 4 && (k
            > 2 ==> 4 * k <= available) && (k < 4 ==> available < 4 * (k + 1)),
        threads(ParallelPolicy::Threads(n), nonlinear, available) matches Some(k) && k >= 1 && k
            >= n && (n >= 1 ==> k == n) && (n == 0 ==> k == 1),
{
}

/// The largest block is that of a nonlinear island, and no nonlinear island is larger.
pub proof fn law_the_largest_block_is_nonlinear(islands: Seq<Island>, count: nat)
    requires
        count <= islands.len(),
    ensures
        forall|i: int|
            0 <= i < count && !(#[trigger] islands[i]).linear ==> islands[i].devices@.len()
                <= largest_block(islands, count),
        largest_block(islands, count) == 0 || exists|i: int|
            0 <= i < count && !(#[trigger] islands[i]).linear && islands[i].devices@.len()
                == largest_block(islands, count),
    decreases count,
{
    if count > 0 {
        law_the_largest_block_is_nonlinear(islands, (count - 1) as nat);
        assert(islands[count - 1] == islands[count - 1]);
    }
}

/// The states of an island are its capacitors and inductors: one per device at most,
/// and none only where it holds neither.
pub proof fn law_states_are_reactive_devices<S>(
    devices: Seq<Device<S>>,
    ids: Seq<DeviceId>,
    count: nat,
)
    requires
        count <= ids.len(),
    ensures
        states_in(devices, ids, count) <= count,
        states_in(devices, ids, count) == 0 <==> forall|k: int|
            0 <= k < count ==> !(devices[(#[trigger] ids[k]).0 as int] is Capacitor)
                && !(devices[ids[k].0 as int] is Inductor),
        states_in(devices, ids, count) == count <==> forall|k: int|
            0 <= k < count ==> devices[(#[trigger] ids[k]).0 as int] is Capacitor
                || devices[ids[k].0 as int] is Inductor,
    decreases count,
{
    if count > 0 {
        law_states_are_reactive_devices(devices, ids, (count - 1) as nat);
        assert(ids[count - 1] == ids[count - 1]);
    }
}

/// The states of the largest linear island: no linear island has more, and some linear
/// island has as many.
pub proof fn law_the_largest_linear_island_is_linear<S>(
    devices: Seq<Device<S>>,
    islands: Seq<Island>,
    count: nat,
)
    requires
        count <= islands.len(),
    ensures
        forall|i: int|
            0 <= i < count && (#[trigger] islands[i]).linear ==> states_in(
                devices,
                islands[i].devices@,
                islands[i].devices@.len(),
            ) <= largest_linear(devices, islands, count),
        largest_linear(devices, islands, count) == 0 || exists|i: int|
            0 <= i < count && (#[trigger] islands[i]).linear && states_in(
                devices,
                islands[i].devices@,
                islands[i].devices@.len(),
            ) == largest_linear(devices, islands, count),
    decreases count,
{
    if count > 0 {
        law_the_largest_linear_island_is_linear(devices, islands, (count - 1) as nat);
        assert(islands[count - 1] == islands[count - 1]);
    }
}

} // verus!
