//! The contributions that do not change from one transient assembly to the next.
use vstd::prelude::*;

use crate::circuit::{Circuit, Device, DeviceId};
use crate::scalar::Scalar;
use crate::stamp::context::controls_resolve;
use crate::stamp::linear::{conductance, short_free_conductance};
use crate::stamp::tape::{
    add_incidence, add_pair, add_transconductance, push_g, put_g, put_incidence, put_pair,
    put_transconductance, Write,
};
use crate::system::Layout;

verus! {

/// The constant matrix contributions of a device: resistors without a
/// temperature coefficient, the incidence of branches, and the gains of
/// controlled sources.
pub open spec fn put_constant<S: Scalar>(
    circuit: &Circuit<S>,
    layout: &Layout<S>,
    d: int,
    t: Seq<Write<S>>,
) -> Seq<Write<S>> {
    let br = layout.branch_of@[d];
    match circuit.devices@[d] {
        Device::Resistor { a, b, ohms, tc1, .. } => if tc1 is None {
            put_pair(
                t,
                layout.spec_node(a),
                layout.spec_node(b),
                short_free_conductance(ohms),
            )
        } else {
            t
        },
        Device::Inductor { a, b, .. } => put_incidence(
            t,
            layout.spec_node(a),
            layout.spec_node(b),
            br,
        ),
        Device::Vsource { p, n, .. } => put_incidence(
            t,
            layout.spec_node(p),
            layout.spec_node(n),
            br,
        ),
        Device::Vcvs { p, n, cp, cn, gain, .. } => {
            let row = put_incidence(t, layout.spec_node(p), layout.spec_node(n), br);
            put_g(
                put_g(row, br, layout.spec_node(cp), gain.spec_negated()),
                br,
                layout.spec_node(cn),
                gain,
            )
        },
        Device::Vccs { p, n, cp, cn, gm, .. } => put_transconductance(
            t,
            layout.spec_node(p),
            layout.spec_node(n),
            layout.spec_node(cp),
            layout.spec_node(cn),
            gm,
        ),
        Device::Cccs { p, n, ctrl_src, gain, .. } => {
            let cbr = layout.branch_of@[ctrl_src.0 as int];
            put_g(
                put_g(t, layout.spec_node(p), cbr, gain),
                layout.spec_node(n),
                cbr,
                gain.spec_negated(),
            )
        },
        Device::Ccvs { p, n, ctrl_src, transres, .. } => put_g(
            put_incidence(t, layout.spec_node(p), layout.spec_node(n), br),
            br,
            layout.branch_of@[ctrl_src.0 as int],
            transres.spec_negated(),
        ),
        _ => t,
    }
}

/// The mutual terms of a winding, to be scaled by the integration factor.
pub open spec fn put_mutual_factors<S: Scalar>(
    layout: &Layout<S>,
    br: Option<usize>,
    partners: Seq<(DeviceId, S)>,
    count: nat,
    t: Seq<Write<S>>,
) -> Seq<Write<S>>
    decreases count,
{
    if count == 0 {
        t
    } else {
        put_g(
            put_mutual_factors(layout, br, partners, (count - 1) as nat, t),
            br,
            layout.branch_of@[partners[count - 1].0.0 as int],
            partners[count - 1].1.spec_negated(),
        )
    }
}

/// The matrix contributions of a device that are constant up to the integration
/// factor: the capacitance of capacitors, the inductance of inductors.
pub open spec fn put_reactive<S: Scalar>(
    circuit: &Circuit<S>,
    layout: &Layout<S>,
    d: int,
    t: Seq<Write<S>>,
) -> Seq<Write<S>> {
    match circuit.devices@[d] {
        Device::Capacitor { a, b, farads, .. } => put_pair(
            t,
            layout.spec_node(a),
            layout.spec_node(b),
            farads,
        ),
        Device::Inductor { henries, .. } => {
            let br = layout.branch_of@[d];
            let own = put_g(t, br, br, henries.spec_negated());
            let partners = layout.couplings@[d]@;
            put_mutual_factors(layout, br, partners, partners.len(), own)
        },
        _ => t,
    }
}

/// The constant contributions of the first `count` devices.
pub open spec fn constant_tape<S: Scalar>(
    circuit: &Circuit<S>,
    layout: &Layout<S>,
    count: nat,
) -> Seq<Write<S>>
    decreases count,
{
    if count == 0 {
        Seq::empty()
    } else {
        put_constant(
            circuit,
            layout,
            count - 1,
            constant_tape(circuit, layout, (count - 1) as nat),
        )
    }
}

/// The reactive contributions of the first `count` devices, before scaling.
pub open spec fn reactive_tape<S: Scalar>(
    circuit: &Circuit<S>,
    layout: &Layout<S>,
    count: nat,
) -> Seq<Write<S>>
    decreases count,
{
    if count == 0 {
        Seq::empty()
    } else {
        put_reactive(
            circuit,
            layout,
            count - 1,
            reactive_tape(circuit, layout, (count - 1) as nat),
        )
    }
}

/// How a device is visited again at each assembly.
#[derive(Clone, Copy, Debug, PartialEq, Eq, Structural)]
pub enum Visit {
    /// Not at all: its contribution is constant.
    Skip,
    /// For its right-hand side; its matrix part is in the backbone.
    RhsOnly,
    /// In full.
    Full,
}

/// How a device is visited again.
pub open spec fn visit_of<S>(dev: Device<S>) -> Visit {
    match dev {
        Device::Resistor { tc1, .. } => if tc1 is None {
            Visit::Skip
        } else {
            Visit::Full
        },
        Device::Capacitor { .. } => Visit::RhsOnly,
        Device::Inductor { .. } => Visit::RhsOnly,
        Device::Vsource { .. } => Visit::RhsOnly,
        Device::Isource { .. } => Visit::RhsOnly,
        Device::Vcvs { .. } => Visit::Skip,
        Device::Vccs { .. } => Visit::Skip,
        Device::Cccs { .. } => Visit::Skip,
        Device::Ccvs { .. } => Visit::Skip,
        Device::Coupling { .. } => Visit::Skip,
        _ => Visit::Full,
    }
}

pub fn visit<S>(dev: &Device<S>) -> (r: Visit)
    ensures
        r == visit_of(*dev),
{
    match dev {
        Device::Resistor { tc1, .. } => match tc1 {
            None => Visit::Skip,
            Some(_) => Visit::Full,
        },
        Device::Capacitor { .. } => Visit::RhsOnly,
        Device::Inductor { .. } => Visit::RhsOnly,
        Device::Vsource { .. } => Visit::RhsOnly,
        Device::Isource { .. } => Visit::RhsOnly,
        Device::Vcvs { .. } => Visit::Skip,
        Device::Vccs { .. } => Visit::Skip,
        Device::Cccs { .. } => Visit::Skip,
        Device::Ccvs { .. } => Visit::Skip,
        Device::Coupling { .. } => Visit::Skip,
        _ => Visit::Full,
    }
}

/// Put a device's constant contributions on a tape.
pub fn push_constant<S: Scalar>(
    circuit: &Circuit<S>,
    layout: &Layout<S>,
    d: usize,
    out: &mut Vec<Write<S>>,
)
    requires
        circuit.wf(),
        layout.lays_out(circuit),
        controls_resolve(circuit.devices@),
        d < circuit.devices@.len(),
    ensures
        final(out)@ == put_constant(circuit, layout, d as int, old(out)@),
{
    proof {
        crate::stamp::context::lemma_node_range(circuit, layout, crate::circuit::NodeId(0));
    }
    let br = layout.branch(DeviceId(d as u32));
    match &circuit.devices[d] {
        Device::Resistor { a, b, ohms, tc1, .. } => {
            if tc1.is_none() {
                add_pair(out, layout.node(*a), layout.node(*b), conductance(*ohms));
            }
        },
        Device::Inductor { a, b, .. } => {
            add_incidence(out, layout.node(*a), layout.node(*b), br);
        },
        Device::Vsource { p, n, .. } => {
            add_incidence(out, layout.node(*p), layout.node(*n), br);
        },
        Device::Vcvs { p, n, cp, cn, gain, .. } => {
            add_incidence(out, layout.node(*p), layout.node(*n), br);
            push_g(out, br, layout.node(*cp), gain.negated());
            push_g(out, br, layout.node(*cn), *gain);
        },
        Device::Vccs { p, n, cp, cn, gm, .. } => {
            add_transconductance(
                out,
                layout.node(*p),
                layout.node(*n),
                layout.node(*cp),
                layout.node(*cn),
                *gm,
            );
        },
        Device::Cccs { p, n, ctrl_src, gain, .. } => {
            assert(circuit.devices@[d as int].spec_controls()[0] == *ctrl_src);
            let cbr = layout.branch(*ctrl_src);
            push_g(out, layout.node(*p), cbr, *gain);
            push_g(out, layout.node(*n), cbr, gain.negated());
        },
        Device::Ccvs { p, n, ctrl_src, transres, .. } => {
            assert(circuit.devices@[d as int].spec_controls()[0] == *ctrl_src);
            let cbr = layout.branch(*ctrl_src);
            add_incidence(out, layout.node(*p), layout.node(*n), br);
            push_g(out, br, cbr, transres.negated());
        },
        _ => {},
    }
}

/// Put a device's reactive contributions on a tape.
pub fn push_reactive<S: Scalar>(
    circuit: &Circuit<S>,
    layout: &Layout<S>,
    d: usize,
    out: &mut Vec<Write<S>>,
)
    requires
        circuit.wf(),
        layout.lays_out(circuit),
        crate::system::couplings_resolve(circuit.devices@),
        d < circuit.devices@.len(),
    ensures
        final(out)@ == put_reactive(circuit, layout, d as int, old(out)@),
{
    proof {
        crate::stamp::context::lemma_node_range(circuit, layout, crate::circuit::NodeId(0));
    }
    match &circuit.devices[d] {
        Device::Capacitor { a, b, farads, .. } => {
            add_pair(out, layout.node(*a), layout.node(*b), *farads);
        },
        Device::Inductor { henries, .. } => {
            let id = DeviceId(d as u32);
            let br = layout.branch(id);
            push_g(out, br, br, henries.negated());
            let ghost own = out@;
            let partners = layout.mutual_partners(id);
            proof {
                crate::stamp::linear::lemma_layout_partners(circuit, layout, d as int);
            }
            let mut k: usize = 0;
            while k < partners.len()
                invariant
                    k <= partners@.len(),
                    layout.lays_out(circuit),
                    forall|j: int|
                        0 <= j < partners@.len() ==> (#[trigger] partners@[j]).0.0
                            < circuit.devices@.len(),
                    out@ == put_mutual_factors(layout, br, partners@, k as nat, own),
                decreases partners@.len() - k,
            {
                let (pid, m) = partners[k];
                push_g(out, br, layout.branch(pid), m.negated());
                k = k + 1;
            }
        },
        _ => {},
    }
}

} // verus!
