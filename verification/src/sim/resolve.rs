//! The names a request uses, looked up in the circuit.
use vstd::prelude::*;

use crate::circuit::{Circuit, Device, DeviceId, NodeId};
use crate::error::{ErrorView, SolveError};
use crate::scalar::Scalar;
use crate::sim::{label_of, Probe, ProbeView};
use crate::stamp::context::lemma_node_range;
use crate::system::Layout;
use crate::text::{decimal, decimal_digits, lower, same_ignoring_case};

verus! {

/// The node of a name: `ground` in any letter case, else the node so named.
pub open spec fn node_named(names: Seq<Seq<char>>, name: Seq<char>) -> Result<NodeId, ErrorView> {
    if lower(name) == "ground"@ {
        Ok(NodeId(0))
    } else if names.contains(name) {
        Ok(NodeId(names.index_of(name) as u32))
    } else {
        Err(ErrorView::Invalid("no node named `"@ + name + "` in the deck"@))
    }
}

/// A lookup's result with its error as text.
pub open spec fn seen<T>(r: Result<T, SolveError>) -> Result<T, ErrorView> {
    match r {
        Ok(v) => Ok(v),
        Err(e) => Err(e@),
    }
}

pub fn resolve_node<S: Scalar>(circuit: &Circuit<S>, name: &str) -> (r: Result<NodeId, SolveError>)
    requires
        circuit.wf(),
    ensures
        seen(r) == node_named(circuit.node_names(), name@),
        r is Ok ==> r->Ok_0.0 < circuit.node_names().len(),
{
    proof {
        circuit.lemma_names();
        reveal_strlit("ground");
        assert(lower("ground"@) =~= "ground"@);
    }
    if same_ignoring_case(name, "ground") {
        return Ok(NodeId::ground());
    }
    match circuit.find_node(name) {
        Some(id) => {
            proof {
                let names = circuit.node_names();
                assert(names[id.0 as int] == name@);
                assert(names.contains(name@));
                let k = names.index_of(name@);
                if k < id.0 {
                    assert(names[k] != names[id.0 as int]);
                } else if k > id.0 {
                    assert(names[id.0 as int] != names[k]);
                }
            }
            Ok(id)
        },
        None => {
            assert(!circuit.node_names().contains(name@));
            let mut text = String::from_str("no node named `");
            text.append(name);
            text.append("` in the deck");
            Err(SolveError::Invalid(text))
        },
    }
}

/// The first device of a name, in any letter case, from `from` on.
pub open spec fn device_named<S>(devices: Seq<Device<S>>, name: Seq<char>, from: int) -> Option<int>
    decreases devices.len() - from,
{
    if from >= devices.len() {
        None
    } else if lower(devices[from].spec_name()) == lower(name) {
        Some(from)
    } else {
        device_named(devices, name, from + 1)
    }
}

/// What a name that no device has is refused with.
pub open spec fn no_element(name: Seq<char>) -> ErrorView {
    ErrorView::Invalid("no element named `"@ + name + "` in the deck"@)
}

pub fn resolve_branch_device<S: Scalar>(circuit: &Circuit<S>, name: &str) -> (r: Result<
    DeviceId,
    SolveError,
>)
    requires
        circuit.wf(),
    ensures
        match device_named(circuit.devices@, name@, 0) {
            Some(d) => r matches Ok(id) && id.0 == d && id.0 < circuit.devices@.len(),
            None => r matches Err(e) && e@ == no_element(name@),
        },
{
    let mut d: usize = 0;
    while d < circuit.devices.len()
        invariant
            circuit.wf(),
            d <= circuit.devices@.len(),
            device_named(circuit.devices@, name@, 0) == device_named(
                circuit.devices@,
                name@,
                d as int,
            ),
        decreases circuit.devices@.len() - d,
    {
        if same_ignoring_case(circuit.devices[d].name(), name) {
            return Ok(DeviceId(d as u32));
        }
        d = d + 1;
    }
    let mut text = String::from_str("no element named `");
    text.append(name);
    text.append("` in the deck");
    Err(SolveError::Invalid(text))
}

/// What a current probe on a device without a branch is refused with.
pub open spec fn branchless(name: Seq<char>) -> ErrorView {
    ErrorView::Invalid(
        "element `"@ + name
            + "` carries no branch current (only V-sources and inductors do)"@,
    )
}

pub fn no_branch(name: &str) -> (r: SolveError)
    ensures
        r@ == branchless(name@),
{
    let mut text = String::from_str("element `");
    text.append(name);
    text.append("` carries no branch current (only V-sources and inductors do)");
    SolveError::Invalid(text)
}

/// The first named node of an unknown, from `from` on.
pub open spec fn node_at<S: Scalar>(layout: &Layout<S>, unknown: usize, names: nat, from: nat) -> Option<
    nat,
>
    decreases names - from,
{
    if from >= names {
        None
    } else if layout.spec_node(NodeId(from as u32)) == Some(unknown) {
        Some(from)
    } else {
        node_at(layout, unknown, names, from + 1)
    }
}

/// What an unknown is called: the node it belongs to, or its number.
pub fn residual_label<S: Scalar>(circuit: &Circuit<S>, layout: &Layout<S>, unknown: usize) -> (r:
    String)
    requires
        circuit.wf(),
        layout.lays_out(circuit),
    ensures
        r@ == match node_at(layout, unknown, circuit.node_names().len(), 1) {
            Some(n) => circuit.node_names()[n as int],
            None => "unknown #"@ + decimal_digits(unknown as nat),
        },
{
    let count: usize = circuit.node_count();
    proof {
        circuit.lemma_names();
    }
    let mut n: usize = 1;
    while n < count
        invariant
            1 <= n <= count,
            count == circuit.node_names().len(),
            count <= u32::MAX,
            circuit.wf(),
            layout.lays_out(circuit),
            node_at(layout, unknown, count as nat, 1) == node_at(
                layout,
                unknown,
                count as nat,
                n as nat,
            ),
        decreases count - n,
    {
        proof {
            lemma_node_range(circuit, layout, NodeId(n as u32));
        }
        match layout.node(NodeId(n as u32)) {
            Some(i) => {
                if i == unknown {
                    return String::from_str(circuit.node_name(NodeId(n as u32)));
                }
            },
            None => {},
        }
        n = n + 1;
    }
    let mut text = String::from_str("unknown #");
    text.append(decimal(unknown).as_str());
    text
}

/// Every node voltage but ground's, in node order.
pub fn default_probes<S: Scalar>(circuit: &Circuit<S>) -> (r: Vec<Probe>)
    requires
        circuit.wf(),
    ensures
        r@.len() == circuit.node_names().len() - 1,
        forall|i: int|
            0 <= i < r@.len() ==> (#[trigger] r@[i])@ == ProbeView::NodeVoltage(
                circuit.node_names()[i + 1],
            ),
{
    proof {
        circuit.lemma_names();
    }
    let mut out: Vec<Probe> = Vec::new();
    let mut i: usize = 1;
    while i < circuit.node_count()
        invariant
            circuit.wf(),
            1 <= i <= circuit.node_names().len() <= u32::MAX,
            out@.len() == i - 1,
            forall|j: int|
                0 <= j < out@.len() ==> (#[trigger] out@[j])@ == ProbeView::NodeVoltage(
                    circuit.node_names()[j + 1],
                ),
        decreases circuit.node_names().len() - i,
    {
        out.push(Probe::NodeVoltage(String::from_str(circuit.node_name(NodeId(i as u32)))));
        i = i + 1;
    }
    out
}

/// The labels of probes, in turn.
pub open spec fn labels_of(probes: Seq<Probe>) -> Seq<Seq<char>> {
    Seq::new(probes.len(), |i: int| label_of(probes[i]@))
}

/// Texts as sequences of characters.
pub open spec fn texts(v: Seq<String>) -> Seq<Seq<char>> {
    Seq::new(v.len(), |i: int| v[i]@)
}

/// The labels of probes, in turn.
pub fn labels(probes: &Vec<Probe>) -> (r: Vec<String>)
    ensures
        texts(r@) == labels_of(probes@),
{
    let mut out: Vec<String> = Vec::new();
    let mut i: usize = 0;
    while i < probes.len()
        invariant
            i <= probes@.len(),
            texts(out@) == labels_of(probes@).take(i as int),
        decreases probes@.len() - i,
    {
        let ghost before = out@;
        out.push(probes[i].label());
        assert(texts(out@) =~= texts(before).push(out@.last()@));
        assert(labels_of(probes@).take(i + 1) =~= labels_of(probes@).take(i as int).push(
            label_of(probes@[i as int]@),
        ));
        i = i + 1;
    }
    assert(labels_of(probes@).take(i as int) =~= labels_of(probes@));
    out
}

/// The temperature of an analysis: the deck's, unless the caller moved it off the
/// usual 27 degrees.
pub open spec fn temperature<S: Scalar>(asked: S, deck: S) -> S {
    let usual = S::spec_int(27);
    if asked.spec_minus(usual).spec_is_zero() && !deck.spec_minus(usual).spec_is_zero() {
        deck
    } else {
        asked
    }
}

pub fn analysis_temperature<S: Scalar>(asked: S, deck: S) -> (r: S)
    ensures
        r == temperature(asked, deck),
{
    let usual: S = S::from_int(27);
    if asked.minus(usual).is_zero() && !deck.minus(usual).is_zero() {
        deck
    } else {
        asked
    }
}

/// A temperature that was asked for prevails; the usual 27 degrees give way to what the
/// deck says.
pub proof fn law_an_asked_temperature_prevails<S: Scalar>(asked: S, deck: S)
    requires
        S::exact(),
    ensures
        asked != S::spec_int(27) ==> temperature(asked, deck) == asked,
        asked == S::spec_int(27) ==> temperature(asked, deck) == deck,
{
    let usual = S::spec_int(27);
    let zero = S::spec_zero();
    S::laws(asked, usual, usual);
    S::laws(deck, usual, usual);
    S::laws(zero, usual, usual);
    S::laws(usual, zero, zero);
    S::laws(asked.spec_minus(usual), usual, usual);
    S::laws(deck.spec_minus(usual), usual, usual);
}

/// A name stands for the first device that bears it, in whatever case, and for none only
/// where no device does.
pub proof fn law_a_name_stands_for_its_first_device<S>(
    devices: Seq<Device<S>>,
    name: Seq<char>,
    from: int,
)
    requires
        0 <= from <= devices.len(),
    ensures
        match device_named(devices, name, from) {
            Some(k) => from <= k < devices.len() && lower(devices[k].spec_name()) == lower(name)
                && forall|j: int|
                from <= j < k ==> lower((#[trigger] devices[j]).spec_name()) != lower(name),
            None => forall|j: int|
                from <= j < devices.len() ==> lower((#[trigger] devices[j]).spec_name())
                    != lower(name),
        },
    decreases devices.len() - from,
{
    if from < devices.len() {
        law_a_name_stands_for_its_first_device(devices, name, from + 1);
    }
}

} // verus!
