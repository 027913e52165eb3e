//! The circuit the solver works on: nodes, devices and their parameters.
//!
//! A [`Circuit`] holds a device list and the names of its nodes. Node `0` is
//! ground. A device refers to its nodes by [`NodeId`] and to other devices (the
//! control of a current-controlled source, the windings of a coupling) by
//! [`DeviceId`], its position in the device list.
use vstd::prelude::*;

use crate::scalar::Scalar;
use crate::text::same_text;

verus! {

/// A circuit node; `0` is ground.
#[derive(Clone, Copy, Debug, PartialEq, Eq, Hash, Structural)]
pub struct NodeId(pub u32);

/// A device, by its position in the circuit's device list.
#[derive(Clone, Copy, Debug, PartialEq, Eq, Hash, Structural)]
pub struct DeviceId(pub u32);

impl NodeId {
    /// The reference node.
    pub fn ground() -> (r: NodeId)
        ensures
            r == NodeId(0),
    {
        NodeId(0)
    }

    pub open spec fn spec_is_ground(self) -> bool {
        self.0 == 0
    }

    pub fn is_ground(self) -> (r: bool)
        ensures
            r == self.spec_is_ground(),
    {
        self.0 == 0
    }
}

/// Channel or junction polarity.
#[derive(Clone, Copy, Debug, PartialEq, Eq, Structural)]
pub enum Polarity {
    N,
    P,
}

impl Polarity {
    pub open spec fn spec_sign<S: Scalar>(self) -> S {
        match self {
            Polarity::N => S::spec_int(1),
            Polarity::P => S::spec_int(-1i64),
        }
    }

    /// `1` for N, `-1` for P: the factor that folds a P device into N space.
    pub fn sign<S: Scalar>(self) -> (r: S)
        ensures
            r == self.spec_sign::<S>(),
    {
        match self {
            Polarity::N => S::from_int(1),
            Polarity::P => S::from_int(-1),
        }
    }
}

/// A junction diode's parameters.
#[derive(Clone, Copy, Debug)]
pub struct DiodeModel<S> {
    /// Saturation current at the nominal temperature.
    pub is: S,
    /// Saturation current at the model temperature.
    pub is_hot: S,
    /// Emission coefficient.
    pub n: S,
    /// Series resistance.
    pub rs: S,
    /// Zero-bias junction capacitance.
    pub cjo: S,
    /// Built-in potential.
    pub vj: S,
    /// Grading coefficient.
    pub m: S,
    /// Transit time.
    pub tt: S,
    /// Reverse breakdown voltage, when the junction breaks down at all.
    pub bv: Option<S>,
}

/// A bipolar transistor's parameters.
#[derive(Clone, Copy, Debug)]
pub struct BjtModel<S> {
    pub polarity: Polarity,
    /// Saturation current at the nominal temperature.
    pub is: S,
    /// Saturation current at the model temperature.
    pub is_hot: S,
    /// Forward and reverse current gain.
    pub bf: S,
    pub br: S,
    /// Forward and reverse emission coefficient.
    pub nf: S,
    pub nr: S,
    /// Forward and reverse Early voltage; absent means no base-width modulation.
    pub vaf: Option<S>,
    pub var: Option<S>,
    /// Series resistance of the base, emitter and collector.
    pub rb: S,
    pub re: S,
    pub rc: S,
    /// Zero-bias junction capacitances.
    pub cje: S,
    pub cjc: S,
    /// Forward and reverse transit time.
    pub tf: S,
    pub tr: S,
}

/// A MOS transistor's parameters.
#[derive(Clone, Copy, Debug)]
pub struct MosfetModel<S> {
    pub polarity: Polarity,
    /// Zero-bias threshold.
    pub vto: S,
    /// Transconductance factor of the channel.
    pub beta: S,
    /// Body-effect coefficient and surface potential.
    pub gamma: S,
    pub phi: S,
    /// Channel-length modulation.
    pub lambda: S,
    /// Subthreshold slope factor.
    pub n_sub: S,
    /// Drain and source series resistance.
    pub rd: S,
    pub rs: S,
    /// Gate overlap and oxide capacitances.
    pub cgs_ov: S,
    pub cgd_ov: S,
    pub c_ox: S,
    /// Bulk junction capacitances, potential and grading.
    pub cbd: S,
    pub cbs: S,
    pub pb: S,
    pub mj: S,
    /// Saturation current of the bulk junctions.
    pub body_is: S,
    /// Whether gate and channel store charge.
    pub gate_charge: bool,
    /// Whether the bulk junctions are modelled.
    pub body_diode: bool,
}

/// The time function of an independent source.
#[derive(Debug)]
pub enum SourceKind<S> {
    Dc(S),
    /// Piecewise-linear `(time, value)` points.
    Pwl(Vec<(S, S)>),
    /// Any other waveform, by its position in the netlist's waveform table.
    Waveform(usize),
    /// The inner source scaled by a ramp that reaches one after the window.
    Ramped(Box<SourceKind<S>>, S),
}

/// What a behavioral source drives.
#[derive(Clone, Copy, Debug, PartialEq, Eq, Structural)]
pub enum BOutput {
    Voltage,
    Current,
}

/// What a behavioral expression reads: a node voltage or a branch current.
#[derive(Clone, Copy, Debug, PartialEq, Eq, Structural)]
pub enum BDep {
    Volt(NodeId),
    Branch(DeviceId),
}

/// A circuit element.
#[derive(Debug)]
#[allow(inconsistent_fields)]
pub enum Device<S> {
    Resistor { name: String, a: NodeId, b: NodeId, ohms: S, tc1: Option<S> },
    Capacitor { name: String, a: NodeId, b: NodeId, farads: S, ic: Option<S> },
    Inductor { name: String, a: NodeId, b: NodeId, henries: S, ic: Option<S> },
    Vsource { name: String, p: NodeId, n: NodeId, kind: SourceKind<S> },
    Isource { name: String, p: NodeId, n: NodeId, kind: SourceKind<S> },
    Diode { name: String, a: NodeId, k: NodeId, model: DiodeModel<S> },
    Bjt { name: String, c: NodeId, b: NodeId, e: NodeId, model: BjtModel<S> },
    Mosfet {
        name: String,
        d: NodeId,
        g: NodeId,
        s: NodeId,
        b: Option<NodeId>,
        model: MosfetModel<S>,
    },
    VSwitch {
        name: String,
        a: NodeId,
        b: NodeId,
        ctrl_p: NodeId,
        ctrl_n: NodeId,
        von: S,
        voff: S,
        ron: S,
        roff: S,
    },
    OpAmp {
        name: String,
        out: NodeId,
        inp: NodeId,
        inn: NodeId,
        reference: Option<NodeId>,
        gain: S,
        rail_lo: S,
        rail_hi: S,
    },
    Comparator {
        name: String,
        out: NodeId,
        inp: NodeId,
        inn: NodeId,
        out_lo: S,
        out_hi: S,
        hysteresis: S,
    },
    Vcvs { name: String, p: NodeId, n: NodeId, cp: NodeId, cn: NodeId, gain: S },
    Vccs { name: String, p: NodeId, n: NodeId, cp: NodeId, cn: NodeId, gm: S },
    Cccs { name: String, p: NodeId, n: NodeId, ctrl_src: DeviceId, gain: S },
    Ccvs { name: String, p: NodeId, n: NodeId, ctrl_src: DeviceId, transres: S },
    Behavioral {
        name: String,
        p: NodeId,
        n: NodeId,
        output: BOutput,
        expr: String,
        deps: Vec<BDep>,
    },
    Coupling { name: String, l1: DeviceId, l2: DeviceId, k: S },
}

/// The nodes that the first `count` dependencies read.
pub open spec fn volt_nodes(deps: Seq<BDep>, count: nat) -> Seq<NodeId>
    decreases count,
{
    if count == 0 {
        Seq::empty()
    } else {
        let rest = volt_nodes(deps, (count - 1) as nat);
        match deps[count - 1] {
            BDep::Volt(n) => rest.push(n),
            BDep::Branch(_) => rest,
        }
    }
}

/// The devices whose branch current the first `count` dependencies read.
pub open spec fn branch_sources(deps: Seq<BDep>, count: nat) -> Seq<DeviceId>
    decreases count,
{
    if count == 0 {
        Seq::empty()
    } else {
        let rest = branch_sources(deps, (count - 1) as nat);
        match deps[count - 1] {
            BDep::Volt(_) => rest,
            BDep::Branch(d) => rest.push(d),
        }
    }
}

impl<S> Device<S> {
    /// The device's name.
    pub open spec fn spec_name(&self) -> Seq<char> {
        match self {
            Device::Resistor { name, .. } => name@,
            Device::Capacitor { name, .. } => name@,
            Device::Inductor { name, .. } => name@,
            Device::Vsource { name, .. } => name@,
            Device::Isource { name, .. } => name@,
            Device::Diode { name, .. } => name@,
            Device::Bjt { name, .. } => name@,
            Device::Mosfet { name, .. } => name@,
            Device::VSwitch { name, .. } => name@,
            Device::OpAmp { name, .. } => name@,
            Device::Comparator { name, .. } => name@,
            Device::Vcvs { name, .. } => name@,
            Device::Vccs { name, .. } => name@,
            Device::Cccs { name, .. } => name@,
            Device::Ccvs { name, .. } => name@,
            Device::Behavioral { name, .. } => name@,
            Device::Coupling { name, .. } => name@,
        }
    }

    /// Every node the device touches, terminals first.
    pub open spec fn spec_nodes(&self) -> Seq<NodeId> {
        match self {
            Device::Resistor { a, b, .. } => seq![*a, *b],
            Device::Capacitor { a, b, .. } => seq![*a, *b],
            Device::Inductor { a, b, .. } => seq![*a, *b],
            Device::Vsource { p, n, .. } => seq![*p, *n],
            Device::Isource { p, n, .. } => seq![*p, *n],
            Device::Diode { a, k, .. } => seq![*a, *k],
            Device::Bjt { c, b, e, .. } => seq![*c, *b, *e],
            Device::Mosfet { d, g, s, b, .. } => match b {
                Some(b) => seq![*d, *g, *s, *b],
                None => seq![*d, *g, *s],
            },
            Device::VSwitch { a, b, ctrl_p, ctrl_n, .. } => seq![*a, *b, *ctrl_p, *ctrl_n],
            Device::OpAmp { out, inp, inn, reference, .. } => match reference {
                Some(r) => seq![*out, *inp, *inn, *r],
                None => seq![*out, *inp, *inn],
            },
            Device::Comparator { out, inp, inn, .. } => seq![*out, *inp, *inn],
            Device::Vcvs { p, n, cp, cn, .. } => seq![*p, *n, *cp, *cn],
            Device::Vccs { p, n, cp, cn, .. } => seq![*p, *n, *cp, *cn],
            Device::Cccs { p, n, .. } => seq![*p, *n],
            Device::Ccvs { p, n, .. } => seq![*p, *n],
            Device::Behavioral { p, n, deps, .. } => seq![*p, *n] + volt_nodes(
                deps@,
                deps@.len(),
            ),
            Device::Coupling { .. } => Seq::empty(),
        }
    }

    /// The nodes through which the device carries current; the others are only
    /// sensed.
    pub open spec fn spec_conduction_nodes(&self) -> Seq<NodeId> {
        match self {
            Device::Resistor { a, b, .. } => seq![*a, *b],
            Device::Capacitor { a, b, .. } => seq![*a, *b],
            Device::Inductor { a, b, .. } => seq![*a, *b],
            Device::Vsource { p, n, .. } => seq![*p, *n],
            Device::Isource { p, n, .. } => seq![*p, *n],
            Device::Diode { a, k, .. } => seq![*a, *k],
            Device::Bjt { c, b, e, .. } => seq![*c, *b, *e],
            Device::Mosfet { d, g, s, b, model, .. } => {
                let ends = seq![*d, *s];
                let gated = if model.gate_charge {
                    ends.push(*g)
                } else {
                    ends
                };
                match b {
                    Some(b) => if model.body_diode {
                        gated.push(*b)
                    } else {
                        gated
                    },
                    None => gated,
                }
            },
            Device::VSwitch { a, b, .. } => seq![*a, *b],
            Device::OpAmp { out, .. } => seq![*out],
            Device::Comparator { out, .. } => seq![*out],
            Device::Vcvs { p, n, .. } => seq![*p, *n],
            Device::Vccs { p, n, .. } => seq![*p, *n],
            Device::Cccs { p, n, .. } => seq![*p, *n],
            Device::Ccvs { p, n, .. } => seq![*p, *n],
            Device::Behavioral { p, n, .. } => seq![*p, *n],
            Device::Coupling { .. } => Seq::empty(),
        }
    }

    /// The devices whose branch current this device reads.
    pub open spec fn spec_controls(&self) -> Seq<DeviceId> {
        match self {
            Device::Cccs { ctrl_src, .. } => seq![*ctrl_src],
            Device::Ccvs { ctrl_src, .. } => seq![*ctrl_src],
            Device::Behavioral { deps, .. } => branch_sources(deps@, deps@.len()),
            Device::Coupling { l1, l2, .. } => seq![*l1, *l2],
            _ => Seq::empty(),
        }
    }

    /// Whether the device is linear in the sense of the partition: resistors,
    /// capacitors, inductors and independent sources.
    pub open spec fn spec_is_linear(&self) -> bool {
        match self {
            Device::Resistor { .. } => true,
            Device::Capacitor { .. } => true,
            Device::Inductor { .. } => true,
            Device::Vsource { .. } => true,
            Device::Isource { .. } => true,
            _ => false,
        }
    }

    /// Whether the device fixes a voltage and so carries a branch current unknown.
    pub open spec fn spec_owns_branch(&self) -> bool {
        match self {
            Device::Vsource { .. } => true,
            Device::Inductor { .. } => true,
            Device::Vcvs { .. } => true,
            Device::Ccvs { .. } => true,
            Device::Behavioral { output, .. } => *output == BOutput::Voltage,
            _ => false,
        }
    }

    pub fn name(&self) -> (r: &str)
        ensures
            r@ == self.spec_name(),
    {
        match self {
            Device::Resistor { name, .. } => name.as_str(),
            Device::Capacitor { name, .. } => name.as_str(),
            Device::Inductor { name, .. } => name.as_str(),
            Device::Vsource { name, .. } => name.as_str(),
            Device::Isource { name, .. } => name.as_str(),
            Device::Diode { name, .. } => name.as_str(),
            Device::Bjt { name, .. } => name.as_str(),
            Device::Mosfet { name, .. } => name.as_str(),
            Device::VSwitch { name, .. } => name.as_str(),
            Device::OpAmp { name, .. } => name.as_str(),
            Device::Comparator { name, .. } => name.as_str(),
            Device::Vcvs { name, .. } => name.as_str(),
            Device::Vccs { name, .. } => name.as_str(),
            Device::Cccs { name, .. } => name.as_str(),
            Device::Ccvs { name, .. } => name.as_str(),
            Device::Behavioral { name, .. } => name.as_str(),
            Device::Coupling { name, .. } => name.as_str(),
        }
    }

    /// Every node the device touches, terminals first.
    pub fn nodes(&self) -> (r: Vec<NodeId>)
        ensures
            r@ == self.spec_nodes(),
    {
        match self {
            Device::Resistor { a, b, .. } => vec![*a, *b],
            Device::Capacitor { a, b, .. } => vec![*a, *b],
            Device::Inductor { a, b, .. } => vec![*a, *b],
            Device::Vsource { p, n, .. } => vec![*p, *n],
            Device::Isource { p, n, .. } => vec![*p, *n],
            Device::Diode { a, k, .. } => vec![*a, *k],
            Device::Bjt { c, b, e, .. } => vec![*c, *b, *e],
            Device::Mosfet { d, g, s, b, .. } => match b {
                Some(b) => vec![*d, *g, *s, *b],
                None => vec![*d, *g, *s],
            },
            Device::VSwitch { a, b, ctrl_p, ctrl_n, .. } => vec![*a, *b, *ctrl_p, *ctrl_n],
            Device::OpAmp { out, inp, inn, reference, .. } => match reference {
                Some(r) => vec![*out, *inp, *inn, *r],
                None => vec![*out, *inp, *inn],
            },
            Device::Comparator { out, inp, inn, .. } => vec![*out, *inp, *inn],
            Device::Vcvs { p, n, cp, cn, .. } => vec![*p, *n, *cp, *cn],
            Device::Vccs { p, n, cp, cn, .. } => vec![*p, *n, *cp, *cn],
            Device::Cccs { p, n, .. } => vec![*p, *n],
            Device::Ccvs { p, n, .. } => vec![*p, *n],
            Device::Behavioral { p, n, deps, .. } => {
                let mut out: Vec<NodeId> = vec![*p, *n];
                let mut i: usize = 0;
                while i < deps.len()
                    invariant
                        i <= deps.len(),
                        out@ == seq![*p, *n] + volt_nodes(deps@, i as nat),
                    decreases deps.len() - i,
                {
                    match deps[i] {
                        BDep::Volt(node) => {
                            out.push(node);
                        },
                        BDep::Branch(_) => {},
                    }
                    i = i + 1;
                }
                out
            },
            Device::Coupling { .. } => Vec::new(),
        }
    }

    /// The nodes through which the device carries current.
    pub fn conduction_nodes(&self) -> (r: Vec<NodeId>)
        ensures
            r@ == self.spec_conduction_nodes(),
    {
        match self {
            Device::Resistor { a, b, .. } => vec![*a, *b],
            Device::Capacitor { a, b, .. } => vec![*a, *b],
            Device::Inductor { a, b, .. } => vec![*a, *b],
            Device::Vsource { p, n, .. } => vec![*p, *n],
            Device::Isource { p, n, .. } => vec![*p, *n],
            Device::Diode { a, k, .. } => vec![*a, *k],
            Device::Bjt { c, b, e, .. } => vec![*c, *b, *e],
            Device::Mosfet { d, g, s, b, model, .. } => {
                let mut out: Vec<NodeId> = vec![*d, *s];
                if model.gate_charge {
                    out.push(*g);
                }
                match b {
                    Some(b) => {
                        if model.body_diode {
                            out.push(*b);
                        }
                    },
                    None => {},
                }
                out
            },
            Device::VSwitch { a, b, .. } => vec![*a, *b],
            Device::OpAmp { out, .. } => vec![*out],
            Device::Comparator { out, .. } => vec![*out],
            Device::Vcvs { p, n, .. } => vec![*p, *n],
            Device::Vccs { p, n, .. } => vec![*p, *n],
            Device::Cccs { p, n, .. } => vec![*p, *n],
            Device::Ccvs { p, n, .. } => vec![*p, *n],
            Device::Behavioral { p, n, .. } => vec![*p, *n],
            Device::Coupling { .. } => Vec::new(),
        }
    }

    /// The devices whose branch current this device reads.
    pub fn controlling_sources(&self) -> (r: Vec<DeviceId>)
        ensures
            r@ == self.spec_controls(),
    {
        match self {
            Device::Cccs { ctrl_src, .. } => vec![*ctrl_src],
            Device::Ccvs { ctrl_src, .. } => vec![*ctrl_src],
            Device::Behavioral { deps, .. } => {
                let mut out: Vec<DeviceId> = Vec::new();
                let mut i: usize = 0;
                while i < deps.len()
                    invariant
                        i <= deps.len(),
                        out@ == branch_sources(deps@, i as nat),
                    decreases deps.len() - i,
                {
                    match deps[i] {
                        BDep::Volt(_) => {},
                        BDep::Branch(d) => {
                            out.push(d);
                        },
                    }
                    i = i + 1;
                }
                out
            },
            Device::Coupling { l1, l2, .. } => vec![*l1, *l2],
            _ => Vec::new(),
        }
    }

    pub fn is_linear(&self) -> (r: bool)
        ensures
            r == self.spec_is_linear(),
    {
        match self {
            Device::Resistor { .. } => true,
            Device::Capacitor { .. } => true,
            Device::Inductor { .. } => true,
            Device::Vsource { .. } => true,
            Device::Isource { .. } => true,
            _ => false,
        }
    }

    pub fn owns_branch(&self) -> (r: bool)
        ensures
            r == self.spec_owns_branch(),
    {
        match self {
            Device::Vsource { .. } => true,
            Device::Inductor { .. } => true,
            Device::Vcvs { .. } => true,
            Device::Ccvs { .. } => true,
            Device::Behavioral { output, .. } => match output {
                BOutput::Voltage => true,
                BOutput::Current => false,
            },
            _ => false,
        }
    }
}

/// The largest node number in a list, or `least` if that is larger.
pub open spec fn greatest_node(nodes: Seq<NodeId>, least: int) -> int
    decreases nodes.len(),
{
    if nodes.len() == 0 {
        least
    } else {
        let rest = greatest_node(nodes.drop_last(), least);
        if nodes.last().0 > rest {
            nodes.last().0 as int
        } else {
            rest
        }
    }
}

/// The largest node number in the first `count` devices, or `least`.
pub open spec fn greatest_used<S>(devices: Seq<Device<S>>, count: nat, least: int) -> int
    decreases count,
{
    if count == 0 {
        least
    } else {
        greatest_node(
            devices[count - 1].spec_nodes(),
            greatest_used(devices, (count - 1) as nat, least),
        )
    }
}

proof fn lemma_greatest_node(nodes: Seq<NodeId>, least: int)
    requires
        0 <= least <= u32::MAX,
    ensures
        least <= greatest_node(nodes, least) <= u32::MAX,
        forall|i: int| 0 <= i < nodes.len() ==> nodes[i].0 <= greatest_node(nodes, least),
    decreases nodes.len(),
{
    if nodes.len() > 0 {
        lemma_greatest_node(nodes.drop_last(), least);
        assert forall|i: int| 0 <= i < nodes.len() implies nodes[i].0 <= greatest_node(
            nodes,
            least,
        ) by {
            if i < nodes.len() - 1 {
                assert(nodes[i] == nodes.drop_last()[i]);
            }
        }
    }
}

/// No device refers to a node beyond the greatest used one.
pub proof fn lemma_greatest_used<S>(devices: Seq<Device<S>>, count: nat, least: int)
    requires
        0 <= least <= u32::MAX,
        count <= devices.len(),
    ensures
        least <= greatest_used(devices, count, least) <= u32::MAX,
        forall|d: int, i: int|
            #![trigger devices[d].spec_nodes()[i]]
            0 <= d < count && 0 <= i < devices[d].spec_nodes().len() ==> devices[d].spec_nodes()[i].0
                <= greatest_used(devices, count, least),
    decreases count,
{
    if count > 0 {
        lemma_greatest_used(devices, (count - 1) as nat, least);
        lemma_greatest_node(
            devices[count - 1].spec_nodes(),
            greatest_used(devices, (count - 1) as nat, least),
        );
    }
}

/// A circuit: its devices, the names of its nodes and its temperature in Celsius.
#[derive(Debug)]
pub struct Circuit<S> {
    pub devices: Vec<Device<S>>,
    pub temp_c: S,
    /// Node names, by node number.
    pub names: Vec<String>,
}

impl<S: Scalar> Circuit<S> {
    /// The name of each node, by node number.
    pub open spec fn node_names(&self) -> Seq<Seq<char>> {
        Seq::new(self.names@.len(), |i: int| self.names@[i]@)
    }

    /// Ground is named `0`, names are distinct, and every id fits its integer.
    pub open spec fn wf(&self) -> bool {
        &&& 1 <= self.names@.len() <= u32::MAX
        &&& self.names@[0]@ == "0"@
        &&& forall|i: int, j: int|
            #![trigger self.names@[i], self.names@[j]]
            0 <= i < j < self.names@.len() ==> self.names@[i]@ != self.names@[j]@
        &&& self.devices@.len() <= u32::MAX
    }

    /// The largest node number named or used.
    pub open spec fn spec_max_node(&self) -> int {
        greatest_used(self.devices@, self.devices@.len(), self.node_names().len() - 1)
    }

    pub proof fn lemma_names(&self)
        requires
            self.wf(),
        ensures
            1 <= self.node_names().len() <= u32::MAX,
            self.node_names()[0] == "0"@,
            forall|i: int, j: int|
                #![trigger self.node_names()[i], self.node_names()[j]]
                0 <= i < j < self.node_names().len() ==> self.node_names()[i]
                    != self.node_names()[j],
            self.devices@.len() <= u32::MAX,
    {
    }

    /// A circuit with ground alone, at 27 degrees.
    pub fn new() -> (r: Self)
        ensures
            r.wf(),
            r.devices@.len() == 0,
            r.node_names() == seq!["0"@],
            r.temp_c == S::spec_int(27),
    {
        let mut names: Vec<String> = Vec::new();
        names.push(String::from_str("0"));
        let r = Circuit { devices: Vec::new(), temp_c: S::from_int(27), names };
        assert(r.node_names() =~= seq!["0"@]);
        r
    }

    /// The node of that name, if it has been named.
    pub fn find_node(&self, name: &str) -> (r: Option<NodeId>)
        requires
            self.wf(),
        ensures
            match r {
                Some(id) => id.0 < self.node_names().len() && self.node_names()[id.0 as int]
                    == name@,
                None => forall|i: int|
                    0 <= i < self.node_names().len() ==> self.node_names()[i] != name@,
            },
    {
        let mut i: usize = 0;
        while i < self.names.len()
            invariant
                self.wf(),
                i <= self.names.len(),
                forall|j: int| 0 <= j < i ==> self.node_names()[j] != name@,
            decreases self.names.len() - i,
        {
            if same_text(self.names[i].as_str(), name) {
                assert(self.node_names()[i as int] == name@);
                return Some(NodeId(i as u32));
            }
            assert(self.node_names()[i as int] != name@);
            i = i + 1;
        }
        None
    }

    /// The node of that name, named now if it was not.
    pub fn node(&mut self, name: &str) -> (r: NodeId)
        requires
            old(self).wf(),
            old(self).node_names().len() < u32::MAX,
        ensures
            final(self).wf(),
            final(self).devices == old(self).devices,
            final(self).temp_c == old(self).temp_c,
            r.0 < final(self).node_names().len(),
            final(self).node_names()[r.0 as int] == name@,
            if old(self).node_names().contains(name@) {
                final(self).node_names() == old(self).node_names()
            } else {
                &&& final(self).node_names() == old(self).node_names().push(name@)
                &&& r.0 == old(self).node_names().len()
            },
    {
        match self.find_node(name) {
            Some(id) => {
                assert(self.node_names().contains(name@)) by {
                    assert(self.node_names()[id.0 as int] == name@);
                }
                id
            },
            None => {
                let id: usize = self.names.len();
                let ghost before = *self;
                self.names.push(String::from_str(name));
                assert(self.node_names() =~= before.node_names().push(name@));
                assert forall|i: int, j: int|
                    #![trigger self.names@[i], self.names@[j]]
                    0 <= i < j < self.names@.len() implies self.names@[i]@ != self.names@[j]@ by {
                    assert(i < before.node_names().len());
                    assert(before.node_names()[i] == self.names@[i]@);
                    if j < before.names@.len() {
                        assert(before.names@[i]@ != before.names@[j]@);
                    }
                }
                NodeId(id as u32)
            },
        }
    }

    /// Number of named nodes, ground included.
    pub fn node_count(&self) -> (r: usize)
        ensures
            r == self.node_names().len(),
    {
        self.names.len()
    }

    pub fn node_name(&self, id: NodeId) -> (r: &str)
        requires
            id.0 < self.node_names().len(),
        ensures
            r@ == self.node_names()[id.0 as int],
    {
        self.names[id.0 as usize].as_str()
    }

    /// Append a device; its id.
    pub fn add(&mut self, device: Device<S>) -> (r: DeviceId)
        requires
            old(self).wf(),
            old(self).devices@.len() < u32::MAX,
        ensures
            final(self).wf(),
            final(self).node_names() == old(self).node_names(),
            final(self).temp_c == old(self).temp_c,
            final(self).devices@ == old(self).devices@.push(device),
            r.0 == old(self).devices@.len(),
    {
        let id: usize = self.devices.len();
        self.devices.push(device);
        DeviceId(id as u32)
    }

    /// The largest node number named or used.
    pub fn max_node(&self) -> (r: u32)
        requires
            self.wf(),
        ensures
            r == self.spec_max_node(),
    {
        let ghost least = self.node_names().len() - 1;
        let mut top: u32 = (self.names.len() - 1) as u32;
        let mut d: usize = 0;
        while d < self.devices.len()
            invariant
                self.wf(),
                least == self.node_names().len() - 1,
                d <= self.devices.len(),
                top == greatest_used(self.devices@, d as nat, least),
            decreases self.devices.len() - d,
        {
            let nodes = self.devices[d].nodes();
            let ghost base = top as int;
            let mut i: usize = 0;
            while i < nodes.len()
                invariant
                    i <= nodes.len(),
                    top == greatest_node(nodes@.take(i as int), base),
                decreases nodes.len() - i,
            {
                assert(nodes@.take(i + 1).drop_last() =~= nodes@.take(i as int));
                if nodes[i].0 > top {
                    top = nodes[i].0;
                }
                i = i + 1;
            }
            assert(nodes@.take(i as int) =~= nodes@);
            d = d + 1;
        }
        top
    }
}

/// Exactly the devices that fix a voltage carry a branch current: voltage sources, held
/// or controlled, behavioral sources of a voltage, and inductors.
pub proof fn law_branches_belong_to_voltages<S>(dev: Device<S>)
    ensures
        dev.spec_owns_branch() <==> dev is Vsource || dev is Inductor || dev is Vcvs || dev is Ccvs
            || (dev matches Device::Behavioral { output, .. } && output == BOutput::Voltage),
{
}

/// A device conducts only at nodes that it touches, and only senses its controls: the
/// inputs of an amplifier or a comparator, the control of a switch or a controlled source
/// conduct only where they are also an output.
pub proof fn law_controls_do_not_conduct<S>(dev: Device<S>, n: NodeId)
    ensures
        dev.spec_conduction_nodes().contains(n) ==> dev.spec_nodes().contains(n),
        match dev {
            Device::OpAmp { out, .. } => dev.spec_conduction_nodes().contains(n) <==> n == out,
            Device::Comparator { out, .. } => dev.spec_conduction_nodes().contains(n) <==> n
                == out,
            Device::VSwitch { a, b, .. } => dev.spec_conduction_nodes().contains(n) <==> n == a
                || n == b,
            Device::Vcvs { p, n: m, .. } => dev.spec_conduction_nodes().contains(n) <==> n == p
                || n == m,
            Device::Vccs { p, n: m, .. } => dev.spec_conduction_nodes().contains(n) <==> n == p
                || n == m,
            Device::Behavioral { p, n: m, .. } => dev.spec_conduction_nodes().contains(n) <==> n
                == p || n == m,
            Device::Mosfet { d, g, s, b, model, .. } => dev.spec_conduction_nodes().contains(n)
                <==> n == d || n == s || (n == g && model.gate_charge) || (b == Some(n)
                && model.body_diode),
            _ => dev.spec_nodes().contains(n) ==> dev.spec_conduction_nodes().contains(n),
        },
{
    let c = dev.spec_conduction_nodes();
    let all = dev.spec_nodes();
    match dev {
        Device::VSwitch { a, b, .. } => {
            assert(c[0] == a && c[1] == b && all[0] == a && all[1] == b);
        },
        Device::OpAmp { out, .. } => {
            assert(c[0] == out && all[0] == out);
        },
        Device::Comparator { out, .. } => {
            assert(c[0] == out && all[0] == out);
        },
        Device::Vcvs { p, n: m, .. } => {
            assert(c[0] == p && c[1] == m && all[0] == p && all[1] == m);
        },
        Device::Vccs { p, n: m, .. } => {
            assert(c[0] == p && c[1] == m && all[0] == p && all[1] == m);
        },
        Device::Behavioral { p, n: m, .. } => {
            assert(c[0] == p && c[1] == m && all[0] == p && all[1] == m);
        },
        Device::Mosfet { d, g, s, b, model, .. } => {
            assert(c[0] == d && c[1] == s);
            assert(all[0] == d && all[1] == g && all[2] == s);
            if model.gate_charge {
                assert(c[2] == g);
            }
            if b is Some {
                assert(all[3] == b->0);
                if model.body_diode {
                    assert(c.last() == b->0);
                    assert(c[c.len() - 1] == b->0);
                }
            }
        },
        _ => {},
    }
}

} // verus!
