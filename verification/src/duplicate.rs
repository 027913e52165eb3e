//! Copies of devices and sources, on the same or on other nodes.
use vstd::prelude::*;

use crate::circuit::{branch_sources, volt_nodes};
use crate::circuit::{BDep, Circuit, Device, DeviceId, NodeId, SourceKind};
use crate::scalar::Scalar;

verus! {

/// Whether two sources are the same time function.
pub open spec fn same_source<S>(a: SourceKind<S>, b: SourceKind<S>) -> bool
    decreases a,
{
    match (a, b) {
        (SourceKind::Dc(x), SourceKind::Dc(y)) => x == y,
        (SourceKind::Pwl(x), SourceKind::Pwl(y)) => x@ == y@,
        (SourceKind::Waveform(x), SourceKind::Waveform(y)) => x == y,
        (SourceKind::Ramped(x, u), SourceKind::Ramped(y, v)) => same_source(*x, *y) && u == v,
        _ => false,
    }
}

/// A copy of a list.
pub fn copied_list<T: Copy>(v: &Vec<T>) -> (r: Vec<T>)
    ensures
        r@ == v@,
{
    let mut out: Vec<T> = Vec::new();
    let mut i: usize = 0;
    while i < v.len()
        invariant
            i <= v@.len(),
            out@ == v@.take(i as int),
        decreases v@.len() - i,
    {
        out.push(v[i]);
        assert(v@.take(i + 1) =~= v@.take(i as int).push(v@[i as int]));
        i = i + 1;
    }
    assert(v@.take(i as int) =~= v@);
    out
}

impl<S: Scalar> SourceKind<S> {
    /// The same time function again.
    pub fn duplicate(&self) -> (r: Self)
        ensures
            same_source(*self, r),
        decreases *self,
    {
        match self {
            SourceKind::Dc(v) => SourceKind::Dc(*v),
            SourceKind::Pwl(points) => SourceKind::Pwl(copied_list(points)),
            SourceKind::Waveform(w) => SourceKind::Waveform(*w),
            SourceKind::Ramped(inner, window) => SourceKind::Ramped(
                Box::new((&**inner).duplicate()),
                *window,
            ),
        }
    }
}

/// Dependencies that read other nodes: the voltages in turn are those of `nodes`.
pub open spec fn redrawn_deps(deps: Seq<BDep>, nodes: Seq<NodeId>) -> Seq<BDep> {
    Seq::new(
        deps.len(),
        |i: int|
            match deps[i] {
                BDep::Volt(_) => BDep::Volt(nodes[volt_nodes(deps, i as nat).len() as int]),
                BDep::Branch(d) => BDep::Branch(d),
            },
    )
}

/// Whether `copy` is `dev` with `nodes` in place of its own nodes, in turn.
pub open spec fn redrawn<S>(dev: Device<S>, nodes: Seq<NodeId>, copy: Device<S>) -> bool {
    match dev {
        Device::Resistor { name, ohms, tc1, .. } => copy == (Device::Resistor {
            name,
            a: nodes[0],
            b: nodes[1],
            ohms,
            tc1,
        }),
        Device::Capacitor { name, farads, ic, .. } => copy == (Device::Capacitor {
            name,
            a: nodes[0],
            b: nodes[1],
            farads,
            ic,
        }),
        Device::Inductor { name, henries, ic, .. } => copy == (Device::Inductor {
            name,
            a: nodes[0],
            b: nodes[1],
            henries,
            ic,
        }),
        Device::Vsource { name, kind, .. } => match copy {
            Device::Vsource { name: name2, p, n, kind: kind2 } => name2 == name && p == nodes[0]
                && n == nodes[1] && same_source(kind, kind2),
            _ => false,
        },
        Device::Isource { name, kind, .. } => match copy {
            Device::Isource { name: name2, p, n, kind: kind2 } => name2 == name && p == nodes[0]
                && n == nodes[1] && same_source(kind, kind2),
            _ => false,
        },
        Device::Diode { name, model, .. } => copy == (Device::Diode {
            name,
            a: nodes[0],
            k: nodes[1],
            model,
        }),
        Device::Bjt { name, model, .. } => copy == (Device::Bjt {
            name,
            c: nodes[0],
            b: nodes[1],
            e: nodes[2],
            model,
        }),
        Device::Mosfet { name, b, model, .. } => copy == (Device::Mosfet {
            name,
            d: nodes[0],
            g: nodes[1],
            s: nodes[2],
            b: if b is Some {
                Some(nodes[3])
            } else {
                None
            },
            model,
        }),
        Device::VSwitch { name, von, voff, ron, roff, .. } => copy == (Device::VSwitch {
            name,
            a: nodes[0],
            b: nodes[1],
            ctrl_p: nodes[2],
            ctrl_n: nodes[3],
            von,
            voff,
            ron,
            roff,
        }),
        Device::OpAmp { name, reference, gain, rail_lo, rail_hi, .. } => copy == (Device::OpAmp {
            name,
            out: nodes[0],
            inp: nodes[1],
            inn: nodes[2],
            reference: if reference is Some {
                Some(nodes[3])
            } else {
                None
            },
            gain,
            rail_lo,
            rail_hi,
        }),
        Device::Comparator { name, out_lo, out_hi, hysteresis, .. } => copy == (
        Device::Comparator {
            name,
            out: nodes[0],
            inp: nodes[1],
            inn: nodes[2],
            out_lo,
            out_hi,
            hysteresis,
        }),
        Device::Vcvs { name, gain, .. } => copy == (Device::Vcvs {
            name,
            p: nodes[0],
            n: nodes[1],
            cp: nodes[2],
            cn: nodes[3],
            gain,
        }),
        Device::Vccs { name, gm, .. } => copy == (Device::Vccs {
            name,
            p: nodes[0],
            n: nodes[1],
            cp: nodes[2],
            cn: nodes[3],
            gm,
        }),
        Device::Cccs { name, ctrl_src, gain, .. } => copy == (Device::Cccs {
            name,
            p: nodes[0],
            n: nodes[1],
            ctrl_src,
            gain,
        }),
        Device::Ccvs { name, ctrl_src, transres, .. } => copy == (Device::Ccvs {
            name,
            p: nodes[0],
            n: nodes[1],
            ctrl_src,
            transres,
        }),
        Device::Behavioral { name, output, expr, deps, .. } => match copy {
            Device::Behavioral { name: name2, p, n, output: output2, expr: expr2, deps: deps2 } =>
            name2 == name && p == nodes[0] && n == nodes[1] && output2 == output && expr2 == expr
                && deps2@ == redrawn_deps(deps@, nodes.skip(2)),
            _ => false,
        },
        Device::Coupling { name, l1, l2, k } => copy == (Device::Coupling { name, l1, l2, k }),
    }
}

proof fn lemma_volt_count(deps: Seq<BDep>, a: nat, b: nat)
    requires
        a <= b,
    ensures
        volt_nodes(deps, a).len() <= volt_nodes(deps, b).len(),
    decreases b,
{
    if a < b {
        lemma_volt_count(deps, a, (b - 1) as nat);
    }
}

proof fn lemma_redrawn_deps(deps: Seq<BDep>, nodes: Seq<NodeId>, count: nat)
    requires
        count <= deps.len(),
        nodes.len() == volt_nodes(deps, deps.len()).len(),
    ensures
        volt_nodes(redrawn_deps(deps, nodes), count) == nodes.take(
            volt_nodes(deps, count).len() as int,
        ),
    decreases count,
{
    if count == 0 {
        assert(nodes.take(0) =~= Seq::<NodeId>::empty());
    } else {
        let below = (count - 1) as nat;
        lemma_redrawn_deps(deps, nodes, below);
        lemma_volt_count(deps, count, deps.len());
        let k = volt_nodes(deps, below).len() as int;
        match deps[count - 1] {
            BDep::Volt(_) => {
                assert(nodes.take(k + 1) =~= nodes.take(k).push(nodes[k]));
            },
            BDep::Branch(_) => {},
        }
    }
}

/// A redrawn device touches the nodes it was redrawn on.
pub proof fn lemma_redrawn_nodes<S>(dev: Device<S>, nodes: Seq<NodeId>, copy: Device<S>)
    requires
        redrawn(dev, nodes, copy),
        nodes.len() == dev.spec_nodes().len(),
    ensures
        copy.spec_nodes() == nodes,
{
    match dev {
        Device::Behavioral { deps, .. } => {
            let rest = nodes.skip(2);
            lemma_redrawn_deps(deps@, rest, deps@.len());
            assert(rest.take(rest.len() as int) =~= rest);
            assert(nodes =~= seq![nodes[0], nodes[1]] + rest);
            assert(redrawn_deps(deps@, rest).len() == deps@.len());
        },
        _ => {},
    }
    assert(copy.spec_nodes() =~= nodes);
}

proof fn lemma_redrawn_branches(deps: Seq<BDep>, nodes: Seq<NodeId>, count: nat)
    requires
        count <= deps.len(),
    ensures
        branch_sources(redrawn_deps(deps, nodes), count) == branch_sources(deps, count),
    decreases count,
{
    if count > 0 {
        lemma_redrawn_branches(deps, nodes, (count - 1) as nat);
    }
}

/// A redrawn device reads the devices that the device reads.
pub proof fn lemma_redrawn_controls<S>(dev: Device<S>, nodes: Seq<NodeId>, copy: Device<S>)
    requires
        redrawn(dev, nodes, copy),
    ensures
        copy.spec_controls() == dev.spec_controls(),
{
    match dev {
        Device::Behavioral { deps, .. } => {
            lemma_redrawn_branches(deps@, nodes.skip(2), deps@.len());
        },
        _ => {},
    }
}

fn redraw_deps(deps: &Vec<BDep>, nodes: &Vec<NodeId>) -> (r: Vec<BDep>)
    requires
        nodes@.len() == 2 + volt_nodes(deps@, deps@.len()).len(),
    ensures
        r@ == redrawn_deps(deps@, nodes@.skip(2)),
{
    let mut out: Vec<BDep> = Vec::new();
    let total: usize = nodes.len();
    let mut seen: usize = 0;
    let mut i: usize = 0;
    while i < deps.len()
        invariant
            i <= deps@.len(),
            total == nodes@.len(),
            nodes@.len() == 2 + volt_nodes(deps@, deps@.len()).len(),
            seen == volt_nodes(deps@, i as nat).len(),
            seen + 2 <= nodes@.len(),
            out@ == redrawn_deps(deps@, nodes@.skip(2)).take(i as int),
        decreases deps@.len() - i,
    {
        let ghost all = redrawn_deps(deps@, nodes@.skip(2));
        proof {
            lemma_volt_count(deps@, (i + 1) as nat, deps@.len());
        }
        match deps[i] {
            BDep::Volt(_) => {
                out.push(BDep::Volt(nodes[seen + 2]));
                seen = seen + 1;
            },
            BDep::Branch(d) => {
                out.push(BDep::Branch(d));
            },
        }
        assert(all.take(i + 1) =~= all.take(i as int).push(all[i as int]));
        i = i + 1;
    }
    assert(redrawn_deps(deps@, nodes@.skip(2)).take(i as int) =~= redrawn_deps(
        deps@,
        nodes@.skip(2),
    ));
    out
}

impl<S: Scalar> Device<S> {
    /// The device on other nodes, which take the place of its own in turn.
    pub fn redraw(&self, nodes: &Vec<NodeId>) -> (r: Device<S>)
        requires
            nodes@.len() == self.spec_nodes().len(),
        ensures
            redrawn(*self, nodes@, r),
            r.spec_nodes() == nodes@,
    {
        let r = self.redraw_parts(nodes);
        proof {
            lemma_redrawn_nodes(*self, nodes@, r);
        }
        r
    }

    fn redraw_parts(&self, nodes: &Vec<NodeId>) -> (r: Device<S>)
        requires
            nodes@.len() == self.spec_nodes().len(),
        ensures
            redrawn(*self, nodes@, r),
    {
        match self {
            Device::Resistor { name, ohms, tc1, .. } => Device::Resistor {
                name: name.clone(),
                a: nodes[0],
                b: nodes[1],
                ohms: *ohms,
                tc1: *tc1,
            },
            Device::Capacitor { name, farads, ic, .. } => Device::Capacitor {
                name: name.clone(),
                a: nodes[0],
                b: nodes[1],
                farads: *farads,
                ic: *ic,
            },
            Device::Inductor { name, henries, ic, .. } => Device::Inductor {
                name: name.clone(),
                a: nodes[0],
                b: nodes[1],
                henries: *henries,
                ic: *ic,
            },
            Device::Vsource { name, kind, .. } => Device::Vsource {
                name: name.clone(),
                p: nodes[0],
                n: nodes[1],
                kind: kind.duplicate(),
            },
            Device::Isource { name, kind, .. } => Device::Isource {
                name: name.clone(),
                p: nodes[0],
                n: nodes[1],
                kind: kind.duplicate(),
            },
            Device::Diode { name, model, .. } => Device::Diode {
                name: name.clone(),
                a: nodes[0],
                k: nodes[1],
                model: *model,
            },
            Device::Bjt { name, model, .. } => Device::Bjt {
                name: name.clone(),
                c: nodes[0],
                b: nodes[1],
                e: nodes[2],
                model: *model,
            },
            Device::Mosfet { name, b, model, .. } => Device::Mosfet {
                name: name.clone(),
                d: nodes[0],
                g: nodes[1],
                s: nodes[2],
                b: match b {
                    Some(_) => Some(nodes[3]),
                    None => None,
                },
                model: *model,
            },
            Device::VSwitch { name, von, voff, ron, roff, .. } => Device::VSwitch {
                name: name.clone(),
                a: nodes[0],
                b: nodes[1],
                ctrl_p: nodes[2],
                ctrl_n: nodes[3],
                von: *von,
                voff: *voff,
                ron: *ron,
                roff: *roff,
            },
            Device::OpAmp { name, reference, gain, rail_lo, rail_hi, .. } => Device::OpAmp {
                name: name.clone(),
                out: nodes[0],
                inp: nodes[1],
                inn: nodes[2],
                reference: match reference {
                    Some(_) => Some(nodes[3]),
                    None => None,
                },
                gain: *gain,
                rail_lo: *rail_lo,
                rail_hi: *rail_hi,
            },
            Device::Comparator { name, out_lo, out_hi, hysteresis, .. } => Device::Comparator {
                name: name.clone(),
                out: nodes[0],
                inp: nodes[1],
                inn: nodes[2],
                out_lo: *out_lo,
                out_hi: *out_hi,
                hysteresis: *hysteresis,
            },
            Device::Vcvs { name, gain, .. } => Device::Vcvs {
                name: name.clone(),
                p: nodes[0],
                n: nodes[1],
                cp: nodes[2],
                cn: nodes[3],
                gain: *gain,
            },
            Device::Vccs { name, gm, .. } => Device::Vccs {
                name: name.clone(),
                p: nodes[0],
                n: nodes[1],
                cp: nodes[2],
                cn: nodes[3],
                gm: *gm,
            },
            Device::Cccs { name, ctrl_src, gain, .. } => Device::Cccs {
                name: name.clone(),
                p: nodes[0],
                n: nodes[1],
                ctrl_src: *ctrl_src,
                gain: *gain,
            },
            Device::Ccvs { name, ctrl_src, transres, .. } => Device::Ccvs {
                name: name.clone(),
                p: nodes[0],
                n: nodes[1],
                ctrl_src: *ctrl_src,
                transres: *transres,
            },
            Device::Behavioral { name, output, expr, deps, .. } => {
                assert(self.spec_nodes().len() == 2 + volt_nodes(deps@, deps@.len()).len());
                Device::Behavioral {
                    name: name.clone(),
                    p: nodes[0],
                    n: nodes[1],
                    output: *output,
                    expr: expr.clone(),
                    deps: redraw_deps(deps, nodes),
                }
            },
            Device::Coupling { name, l1, l2, k } => Device::Coupling {
                name: name.clone(),
                l1: *l1,
                l2: *l2,
                k: *k,
            },
        }
    }

    /// The same device again.
    pub fn duplicate(&self) -> (r: Device<S>)
        ensures
            same_device(*self, r),
            r.spec_nodes() == self.spec_nodes(),
    {
        let nodes = self.nodes();
        self.redraw(&nodes)
    }
}

/// Whether two devices are the same.
pub open spec fn same_device<S>(a: Device<S>, b: Device<S>) -> bool {
    redrawn(a, a.spec_nodes(), b)
}

/// Whether two circuits are the same.
pub open spec fn same_circuit<S: Scalar>(a: &Circuit<S>, b: &Circuit<S>) -> bool {
    &&& a.node_names() == b.node_names()
    &&& a.temp_c == b.temp_c
    &&& a.devices@.len() == b.devices@.len()
    &&& forall|d: int|
        0 <= d < a.devices@.len() ==> same_device(a.devices@[d], #[trigger] b.devices@[d])
}

impl<S: Scalar> Circuit<S> {
    /// The same circuit again.
    pub fn duplicate(&self) -> (r: Circuit<S>)
        requires
            self.wf(),
        ensures
            r.wf(),
            same_circuit(self, &r),
    {
        let mut names: Vec<String> = Vec::new();
        let mut i: usize = 0;
        while i < self.names.len()
            invariant
                i <= self.names@.len(),
                names@ == self.names@.take(i as int),
            decreases self.names@.len() - i,
        {
            names.push(self.names[i].clone());
            assert(self.names@.take(i + 1) =~= self.names@.take(i as int).push(
                self.names@[i as int],
            ));
            i = i + 1;
        }
        assert(self.names@.take(i as int) =~= self.names@);
        let mut devices: Vec<Device<S>> = Vec::new();
        let mut d: usize = 0;
        while d < self.devices.len()
            invariant
                d <= self.devices@.len(),
                devices@.len() == d,
                forall|k: int|
                    0 <= k < d ==> same_device(self.devices@[k], #[trigger] devices@[k]),
            decreases self.devices@.len() - d,
        {
            devices.push(self.devices[d].duplicate());
            d = d + 1;
        }
        Circuit { devices, temp_c: self.temp_c, names }
    }
}

/// Dependencies on other branches: the branch currents in turn are those of
/// `controls`.
pub open spec fn rewired_deps(deps: Seq<BDep>, controls: Seq<DeviceId>) -> Seq<BDep> {
    Seq::new(
        deps.len(),
        |i: int|
            match deps[i] {
                BDep::Volt(n) => BDep::Volt(n),
                BDep::Branch(_) => BDep::Branch(
                    controls[branch_sources(deps, i as nat).len() as int],
                ),
            },
    )
}

/// Whether `copy` is `dev` with `controls` in place of the devices it reads, in
/// turn.
pub open spec fn rewired<S>(dev: Device<S>, controls: Seq<DeviceId>, copy: Device<S>) -> bool {
    match dev {
        Device::Cccs { name, p, n, gain, .. } => copy == (Device::Cccs {
            name,
            p,
            n,
            ctrl_src: controls[0],
            gain,
        }),
        Device::Ccvs { name, p, n, transres, .. } => copy == (Device::Ccvs {
            name,
            p,
            n,
            ctrl_src: controls[0],
            transres,
        }),
        Device::Behavioral { name, p, n, output, expr, deps } => match copy {
            Device::Behavioral {
                name: name2,
                p: p2,
                n: n2,
                output: output2,
                expr: expr2,
                deps: deps2,
            } => name2 == name && p2 == p && n2 == n && output2 == output && expr2 == expr && deps2@
                == rewired_deps(deps@, controls),
            _ => false,
        },
        Device::Coupling { name, k, .. } => copy == (Device::Coupling {
            name,
            l1: controls[0],
            l2: controls[1],
            k,
        }),
        _ => copy == dev,
    }
}

proof fn lemma_branch_count(deps: Seq<BDep>, a: nat, b: nat)
    requires
        a <= b,
    ensures
        branch_sources(deps, a).len() <= branch_sources(deps, b).len(),
    decreases b,
{
    if a < b {
        lemma_branch_count(deps, a, (b - 1) as nat);
    }
}

proof fn lemma_rewired_deps(deps: Seq<BDep>, controls: Seq<DeviceId>, count: nat)
    requires
        count <= deps.len(),
        controls.len() == branch_sources(deps, deps.len()).len(),
    ensures
        branch_sources(rewired_deps(deps, controls), count) == controls.take(
            branch_sources(deps, count).len() as int,
        ),
        volt_nodes(rewired_deps(deps, controls), count) == volt_nodes(deps, count),
    decreases count,
{
    if count == 0 {
        assert(controls.take(0) =~= Seq::<DeviceId>::empty());
    } else {
        let below = (count - 1) as nat;
        lemma_rewired_deps(deps, controls, below);
        lemma_branch_count(deps, count, deps.len());
        let k = branch_sources(deps, below).len() as int;
        match deps[count - 1] {
            BDep::Branch(_) => {
                assert(controls.take(k + 1) =~= controls.take(k).push(controls[k]));
            },
            BDep::Volt(_) => {},
        }
    }
}

/// A rewired device keeps its nodes and reads the devices it was rewired to.
pub proof fn lemma_rewired<S>(dev: Device<S>, controls: Seq<DeviceId>, copy: Device<S>)
    requires
        rewired(dev, controls, copy),
        controls.len() == dev.spec_controls().len(),
    ensures
        copy.spec_nodes() == dev.spec_nodes(),
        copy.spec_controls() == controls,
        copy.spec_owns_branch() == dev.spec_owns_branch(),
{
    match dev {
        Device::Behavioral { deps, .. } => {
            lemma_rewired_deps(deps@, controls, deps@.len());
            assert(controls.take(controls.len() as int) =~= controls);
            assert(rewired_deps(deps@, controls).len() == deps@.len());
        },
        _ => {},
    }
    assert(copy.spec_controls() =~= controls);
}

fn rewire_deps(deps: &Vec<BDep>, controls: &Vec<DeviceId>) -> (r: Vec<BDep>)
    requires
        controls@.len() == branch_sources(deps@, deps@.len()).len(),
    ensures
        r@ == rewired_deps(deps@, controls@),
{
    let mut out: Vec<BDep> = Vec::new();
    let total: usize = controls.len();
    let mut seen: usize = 0;
    let mut i: usize = 0;
    while i < deps.len()
        invariant
            i <= deps@.len(),
            total == controls@.len(),
            controls@.len() == branch_sources(deps@, deps@.len()).len(),
            seen == branch_sources(deps@, i as nat).len(),
            seen <= total,
            out@ == rewired_deps(deps@, controls@).take(i as int),
        decreases deps@.len() - i,
    {
        let ghost all = rewired_deps(deps@, controls@);
        proof {
            lemma_branch_count(deps@, (i + 1) as nat, deps@.len());
        }
        match deps[i] {
            BDep::Branch(_) => {
                out.push(BDep::Branch(controls[seen]));
                seen = seen + 1;
            },
            BDep::Volt(n) => {
                out.push(BDep::Volt(n));
            },
        }
        assert(all.take(i + 1) =~= all.take(i as int).push(all[i as int]));
        i = i + 1;
    }
    assert(rewired_deps(deps@, controls@).take(i as int) =~= rewired_deps(deps@, controls@));
    out
}

impl<S: Scalar> Device<S> {
    /// Read the given devices in place of its own, in turn.
    pub fn rewire(&mut self, controls: &Vec<DeviceId>)
        requires
            controls@.len() == old(self).spec_controls().len(),
        ensures
            rewired(*old(self), controls@, *final(self)),
    {
        match self {
            Device::Cccs { ctrl_src, .. } => {
                *ctrl_src = controls[0];
            },
            Device::Ccvs { ctrl_src, .. } => {
                *ctrl_src = controls[0];
            },
            Device::Behavioral { deps, .. } => {
                *deps = rewire_deps(deps, controls);
            },
            Device::Coupling { l1, l2, .. } => {
                *l1 = controls[0];
                *l2 = controls[1];
            },
            _ => {},
        }
    }
}

} // verus!
