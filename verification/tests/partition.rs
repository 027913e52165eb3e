use hauksbee_solve::partition::union_find::UnionFind;
use hauksbee_solve::circuit::{BjtModel, Circuit, Device, DeviceId, DiodeModel, NodeId, Polarity, SourceKind};
use hauksbee_solve::partition::analyze::Partition;
use hauksbee_solve::partition::components::pin;
use hauksbee_solve::scalar::Scalar;
use hauksbee_solve::subcircuit::{extract, SubCircuit};
use hauksbee_solve::system::{Layout, ReactiveState};

#[derive(Clone, Copy, Debug, PartialEq)]
struct Real(f64);

impl Scalar for Real {
    fn exact() -> bool { false }
    fn spec_zero() -> Self { Self::zero() }
    fn spec_int(n: i64) -> Self { Self::from_int(n) }
    fn spec_plus(self, o: Self) -> Self { self.plus(o) }
    fn spec_minus(self, o: Self) -> Self { self.minus(o) }
    fn spec_times(self, o: Self) -> Self { self.times(o) }
    fn spec_over(self, o: Self) -> Self { self.over(o) }
    fn spec_negated(self) -> Self { self.negated() }
    fn spec_abs(self) -> Self { self.abs() }
    fn spec_sqrt(self) -> Self { self.sqrt() }
    fn spec_exp(self) -> Self { self.exp() }
    fn spec_ln(self) -> Self { self.ln() }
    fn spec_ln_1p(self) -> Self { self.ln_1p() }
    fn spec_tanh(self) -> Self { self.tanh() }
    fn spec_pow(self, o: Self) -> Self { self.pow(o) }
    fn spec_less(self, o: Self) -> bool { self.less(o) }
    fn spec_at_most(self, o: Self) -> bool { self.at_most(o) }
    fn spec_is_zero(self) -> bool { self.is_zero() }
    fn spec_finite(self) -> bool { self.finite() }
    fn laws(_: Self, _: Self, _: Self) {}
    fn integer_laws(_: i64) {}
    fn zero() -> Self { Real(0.0) }
    fn from_int(n: i64) -> Self { Real(n as f64) }
    fn plus(self, o: Self) -> Self { Real(self.0 + o.0) }
    fn minus(self, o: Self) -> Self { Real(self.0 - o.0) }
    fn times(self, o: Self) -> Self { Real(self.0 * o.0) }
    fn over(self, o: Self) -> Self { Real(self.0 / o.0) }
    fn negated(self) -> Self { Real(-self.0) }
    fn abs(self) -> Self { Real(self.0.abs()) }
    fn sqrt(self) -> Self { Real(self.0.sqrt()) }
    fn exp(self) -> Self { Real(self.0.exp()) }
    fn ln(self) -> Self { Real(self.0.ln()) }
    fn ln_1p(self) -> Self { Real(self.0.ln_1p()) }
    fn tanh(self) -> Self { Real(self.0.tanh()) }
    fn pow(self, o: Self) -> Self { Real(self.0.powf(o.0)) }
    fn less(self, o: Self) -> bool { self.0 < o.0 }
    fn at_most(self, o: Self) -> bool { self.0 <= o.0 }
    fn is_zero(self) -> bool { self.0 == 0.0 }
    fn finite(self) -> bool { self.0.is_finite() }
}

fn r(v: f64) -> Real {
    Real(v)
}

const GND: NodeId = NodeId(0);

fn res(c: &mut Circuit<Real>, name: &str, a: NodeId, b: NodeId, ohms: f64) -> DeviceId {
    c.add(Device::Resistor { name: name.into(), a, b, ohms: r(ohms), tc1: None })
}

fn cap_ic(c: &mut Circuit<Real>, name: &str, a: NodeId, b: NodeId, farads: f64, ic: f64) -> DeviceId {
    c.add(Device::Capacitor { name: name.into(), a, b, farads: r(farads), ic: Some(r(ic)) })
}

fn vdc(c: &mut Circuit<Real>, name: &str, p: NodeId, volts: f64) -> DeviceId {
    c.add(Device::Vsource { name: name.into(), p, n: GND, kind: SourceKind::Dc(r(volts)) })
}

fn diode(c: &mut Circuit<Real>, name: &str, a: NodeId, k: NodeId) -> DeviceId {
    let model = DiodeModel {
        is: r(1e-14),
        is_hot: r(1e-14),
        n: r(1.0),
        rs: r(0.0),
        cjo: r(0.0),
        vj: r(1.0),
        m: r(0.5),
        tt: r(0.0),
        bv: None,
    };
    c.add(Device::Diode { name: name.into(), a, k, model })
}

fn bjt(rb: f64, re: f64, rc: f64) -> BjtModel<Real> {
    BjtModel {
        polarity: Polarity::N,
        is: r(1e-14),
        is_hot: r(1e-14),
        bf: r(100.0),
        br: r(1.0),
        nf: r(1.0),
        nr: r(1.0),
        vaf: None,
        var: None,
        rb: r(rb),
        re: r(re),
        rc: r(rc),
        cje: r(0.0),
        cjc: r(0.0),
        tf: r(0.0),
        tr: r(0.0),
    }
}

#[test]
fn rc_ladder_is_one_linear_island() {
    let mut c = Circuit::new();
    let n0 = c.node("n0");
    vdc(&mut c, "V1", n0, 1.0);
    let mut prev = n0;
    for i in 0..5 {
        let next = c.node(&format!("n{}", i + 1));
        res(&mut c, &format!("R{}", i + 1), prev, next, 1e3);
        cap_ic(&mut c, &format!("C{}", i + 1), next, GND, 1e-9, 0.0);
        prev = next;
    }
    let p = Partition::analyze(&c);
    assert_eq!(p.islands.len(), 1, "ladder should be one island");
    assert!(p.islands[0].linear);
    assert_eq!(p.sources.len(), 1);
    assert!(p.islands[0].boundary_in.contains(&n0));
}

#[test]
fn two_isolated_rc_are_two_islands() {
    let mut c = Circuit::new();
    let rail = c.node("rail");
    let a = c.node("a");
    let b = c.node("b");
    vdc(&mut c, "V1", rail, 1.0);
    res(&mut c, "Ra", rail, a, 1e3);
    cap_ic(&mut c, "Ca", a, GND, 1e-9, 0.0);
    res(&mut c, "Rb", rail, b, 1e3);
    cap_ic(&mut c, "Cb", b, GND, 1e-9, 0.0);
    let p = Partition::analyze(&c);
    assert_eq!(p.islands.len(), 2, "{}", p.summary());
    assert!(p.islands.iter().all(|i| i.linear));
    assert_eq!(p.islands[0].nodes, vec![rail, a]);
    assert_eq!(p.islands[1].nodes, vec![rail, b]);
    assert_eq!(p.islands[0].boundary_in, vec![rail]);
    assert!(p.has_linear_island());
    assert_eq!(p.nonlinear_count(), 0);
}

#[test]
fn diode_taints_its_island() {
    let mut c = Circuit::new();
    let n = c.node("n");
    vdc(&mut c, "V1", n, 1.0);
    let d = c.node("d");
    res(&mut c, "R", n, d, 1e3);
    diode(&mut c, "D", d, GND);
    let p = Partition::analyze(&c);
    assert_eq!(p.islands.len(), 1);
    assert!(!p.islands[0].linear, "diode island must be nonlinear");
    assert_eq!(p.nonlinear_count(), 1);
    assert!(!p.has_linear_island());
}

/// A supply stacked on another pins its node as well.
#[test]
fn stacked_supplies_pin_their_nodes() {
    let mut c = Circuit::new();
    let lo = c.node("lo");
    let hi = c.node("hi");
    let out = c.node("out");
    c.add(Device::Vsource { name: "V2".into(), p: hi, n: lo, kind: SourceKind::Dc(r(1.0)) });
    vdc(&mut c, "V1", lo, 1.0);
    res(&mut c, "R1", hi, out, 1e3);
    res(&mut c, "R2", lo, GND, 1e3);
    let p = Partition::analyze(&c);
    assert_eq!(p.islands.len(), 1);
    assert_eq!(p.islands[0].boundary_in, vec![hi]);
    assert_eq!(p.islands[0].devices, vec![DeviceId(2)]);
    assert_eq!(p.sources, vec![DeviceId(0), DeviceId(1)]);
}

/// Each device that touches a free node is in one island.
#[test]
fn every_device_has_one_island() {
    let mut c = Circuit::new();
    let rail = c.node("rail");
    vdc(&mut c, "V1", rail, 1.0);
    for k in 0..4 {
        let n = c.node(&format!("n{k}"));
        res(&mut c, &format!("R{k}"), rail, n, 1e3);
        diode(&mut c, &format!("D{k}"), n, GND);
    }
    let p = Partition::analyze(&c);
    assert_eq!(p.islands.len(), 4);
    let mut seen: Vec<u32> = p.islands.iter().flat_map(|i| i.devices.iter().map(|d| d.0)).collect();
    seen.sort();
    assert_eq!(seen, (1..9).collect::<Vec<u32>>());
}

#[test]
fn sparse_asbuilt_node_id_uses_one_dense_unknown() {
    let mut c = Circuit::new();
    let collector = c.node("collector");
    let floated_base = NodeId(800_000);
    c.add(Device::Bjt {
        name: "Q_cut".into(),
        c: collector,
        b: floated_base,
        e: GND,
        model: bjt(0.0, 0.0, 0.0),
    });
    let layout = Layout::new(&c);
    assert_eq!(layout.n_nodes, 2, "one named node plus one cut terminal");
    assert_eq!(layout.node(collector), Some(0));
    assert_eq!(layout.node(floated_base), Some(1));
    assert_eq!(layout.node_id(1), Some(floated_base));
}

/// Private unknowns follow the nodes, branches come last, all are distinct.
#[test]
fn private_unknowns_follow_the_nodes() {
    let mut c = Circuit::new();
    let a = c.node("a");
    let b = c.node("b");
    let v = vdc(&mut c, "V1", a, 1.0);
    let q = c.add(Device::Bjt { name: "Q1".into(), c: a, b, e: GND, model: bjt(10.0, 0.0, 2.0) });
    let layout = Layout::new(&c);
    assert_eq!(layout.bjt_internal(q), Some(&[Some(2), Some(3), None]));
    assert_eq!(layout.n_nodes, 4);
    assert_eq!(layout.branch(v), Some(4));
    assert_eq!(layout.size, 5);
    assert_eq!(layout.node_id(0), Some(a));
    assert_eq!(layout.node_id(4), None);
    assert_eq!(layout.node(GND), None);
    let state: ReactiveState<Real> = ReactiveState::new(2);
    assert_eq!(state.x1, vec![r(0.0), r(0.0)]);
    assert_eq!(state.xb[2].dx1.len(), 2);
}

/// Local numbers follow the order of first mention, and the two maps undo each other.
#[test]
fn sub_circuit_maps_are_inverse() {
    let mut c = Circuit::new();
    let a = c.node("a");
    let b = c.node("b");
    let d = c.node("d");
    let r1 = res(&mut c, "R1", d, b, 1e3);
    res(&mut c, "R2", a, GND, 1e3);
    let r3 = res(&mut c, "R3", b, NodeId(70), 2e3);
    let sub = extract(&c, &vec![r1, r3]);
    assert_eq!(sub.l2g(), &vec![GND, d, b, NodeId(70)]);
    assert_eq!(sub.local(&c, b), Some(NodeId(2)));
    assert_eq!(sub.local(&c, a), None);
    assert_eq!(sub.circuit.node_name(NodeId(1)), "d");
    assert_eq!(sub.circuit.node_name(NodeId(3)), "?70");
    assert_eq!(sub.circuit.devices[1].nodes(), vec![NodeId(2), NodeId(3)]);
    assert_eq!(sub.circuit.devices[1].name(), "R3");
    let mut more: SubCircuit<Real> = SubCircuit::new(&c);
    assert_eq!(more.map(&c, b), NodeId(1));
    assert_eq!(more.map(&c, a), NodeId(2));
    assert_eq!(more.map(&c, b), NodeId(1));
    let (circuit, g2l) = more.into_parts();
    assert_eq!(circuit.node_count(), 3);
    assert_eq!(g2l.get(&a.0), Some(&2));
}

/// A stack listed from the top down takes a pass per source, and there are 64 passes;
/// listed from the bottom up it takes one.
#[test]
fn stacks_are_pinned_pass_by_pass() {
    let stack = |depth: u32, down: bool| -> Vec<bool> {
        let mut devices: Vec<Device<Real>> = (0..depth)
            .map(|k| Device::Vsource {
                name: format!("V{k}"),
                p: NodeId(k + 1),
                n: NodeId(k),
                kind: SourceKind::Dc(Real(1.0)),
            })
            .collect();
        if down {
            devices.reverse();
        }
        pin(&devices, depth as usize)
    };
    assert!(stack(64, true).iter().all(|p| *p));
    assert!(stack(200, false).iter().all(|p| *p));
    let deep = stack(66, true);
    assert!(deep[64] && !deep[65] && !deep[66]);
}

/// A leader leads itself, and finding it moves no element to another class.
#[test]
fn leaders_lead_themselves() {
    let mut classes = UnionFind::new(6);
    classes.union(5, 4);
    classes.union(4, 2);
    classes.union(1, 0);
    let of = |c: &mut UnionFind| (0..6).map(|i| c.find(i)).collect::<Vec<usize>>();
    let leaders = of(&mut classes);
    assert_eq!(leaders, vec![0, 0, 2, 3, 2, 2]);
    assert!(leaders.iter().all(|l| classes.find(*l) == *l));
    assert_eq!(of(&mut classes), leaders);
}
