use hauksbee_solve::circuit::{Circuit, Device, DeviceId, NodeId, SourceKind};
use hauksbee_solve::error::{SolveError, SolvePhase};
use hauksbee_solve::options::{DeviceEffects, Integration, SolverOptions};
use hauksbee_solve::scalar::Scalar;
use hauksbee_solve::sim::ac::{plan_ac, read_targets, Target};
use hauksbee_solve::sim::output::{
    error_budget, op_output, tran_output, Objections, OpPoint, SimOutput, TranWaves, WorstResidual,
};
use hauksbee_solve::sim::resolve::{
    analysis_temperature, default_probes, residual_label, resolve_branch_device, resolve_node,
};
use hauksbee_solve::sim::sweep::{
    dc_output, dc_sweep_values, set_source_value, sweep_points, worst_point,
};
use hauksbee_solve::sim::Probe;
use hauksbee_solve::sparse::SparseMatrix;
use hauksbee_solve::stamp::context::Linearized;
use hauksbee_solve::stamp::{reserve_pattern, stamp_all, IntegCoeffs, StampCtx};
use hauksbee_solve::system::{Layout, ReactiveState};

#[derive(Clone, Copy, Debug, PartialEq)]
struct Real(f64);

impl Scalar for Real {
    fn exact() -> bool { false }
    fn spec_zero() -> Self { Self::zero() }
    fn spec_int(n: i64) -> Self { Self::from_int(n) }
    fn spec_plus(self, o: Self) -> Self { self.plus(o) }
    fn spec_minus(self, o: Self) -> Self { self.minus(o) }
    fn spec_times(self, o: Self) -> Self { self.times(o) }
    fn spec_over(self, o: Self) -> Self { self.over(o) }
    fn spec_negated(self) -> Self { self.negated() }
    fn spec_abs(self) -> Self { self.abs() }
    fn spec_sqrt(self) -> Self { self.sqrt() }
    fn spec_exp(self) -> Self { self.exp() }
    fn spec_ln(self) -> Self { self.ln() }
    fn spec_ln_1p(self) -> Self { self.ln_1p() }
    fn spec_tanh(self) -> Self { self.tanh() }
    fn spec_pow(self, o: Self) -> Self { self.pow(o) }
    fn spec_less(self, o: Self) -> bool { self.less(o) }
    fn spec_at_most(self, o: Self) -> bool { self.at_most(o) }
    fn spec_is_zero(self) -> bool { self.is_zero() }
    fn spec_finite(self) -> bool { self.finite() }
    fn laws(_: Self, _: Self, _: Self) {}
    fn integer_laws(_: i64) {}
    fn zero() -> Self { Real(0.0) }
    fn from_int(n: i64) -> Self { Real(n as f64) }
    fn plus(self, o: Self) -> Self { Real(self.0 + o.0) }
    fn minus(self, o: Self) -> Self { Real(self.0 - o.0) }
    fn times(self, o: Self) -> Self { Real(self.0 * o.0) }
    fn over(self, o: Self) -> Self { Real(self.0 / o.0) }
    fn negated(self) -> Self { Real(-self.0) }
    fn abs(self) -> Self { Real(self.0.abs()) }
    fn sqrt(self) -> Self { Real(self.0.sqrt()) }
    fn exp(self) -> Self { Real(self.0.exp()) }
    fn ln(self) -> Self { Real(self.0.ln()) }
    fn ln_1p(self) -> Self { Real(self.0.ln_1p()) }
    fn tanh(self) -> Self { Real(self.0.tanh()) }
    fn pow(self, o: Self) -> Self { Real(self.0.powf(o.0)) }
    fn less(self, o: Self) -> bool { self.0 < o.0 }
    fn at_most(self, o: Self) -> bool { self.0 <= o.0 }
    fn is_zero(self) -> bool { self.0 == 0.0 }
    fn finite(self) -> bool { self.0.is_finite() }
}

fn r(v: f64) -> Real {
    Real(v)
}

fn vt() -> f64 {
    8.617333262e-5 * 300.15
}

fn options() -> SolverOptions<Real> {
    SolverOptions {
        integration: Integration::Trapezoidal,
        gmin: r(1e-12),
        reltol: r(1e-3),
        vntol: r(1e-6),
        abstol: r(1e-12),
        chgtol: r(1e-14),
        model_temp: r(27.0),
        vt_nominal: r(vt()),
        vt_model: r(vt()),
        effects: DeviceEffects {
            temperature: false,
            junction_caps: true,
            series_resistance: true,
            early_effect: true,
            spdt_bbm: false,
            spdt_bbm_k: r(1.0),
            switch_ctrl_gm: false,
            comparator_gain: r(100.0),
        },
    }
}

fn dc_values(c: &Circuit<Real>) -> Vec<Real> {
    c.devices
        .iter()
        .map(|d| match d {
            Device::Vsource { kind: SourceKind::Dc(v), .. } => *v,
            Device::Isource { kind: SourceKind::Dc(v), .. } => *v,
            _ => r(0.0),
        })
        .collect()
}

/// Newton's method on a circuit's system; the solution, if it settles.
fn newton(
    c: &Circuit<Real>,
    layout: &Layout<Real>,
    opts: &SolverOptions<Real>,
    state: &ReactiveState<Real>,
    start: &Vec<Real>,
    coeffs: IntegCoeffs<Real>,
    dc: bool,
) -> Option<Vec<Real>> {
    let sources = dc_values(c);
    let siblings: Vec<Option<DeviceId>> = vec![None; c.devices.len()];
    let behavior: Vec<Option<Linearized<Real>>> = (0..c.devices.len()).map(|_| None).collect();
    let mut x = start.clone();
    for _ in 0..100 {
        let ctx = StampCtx {
            circuit: c,
            layout,
            opts,
            x: &x,
            x_prev: &x,
            coeffs,
            state,
            dc,
            use_ic: false,
            gmin: opts.gmin,
            src_scale: r(1.0),
            branch_reg: r(0.0),
            comparator_freeze: None,
            switch_freeze: None,
            spdt_sibling: &siblings,
            source_dc: &sources,
            source_now: &sources,
            behavior: &behavior,
        };
        let mut m = SparseMatrix::new(layout.size);
        reserve_pattern(c, layout, &mut m);
        let mut next = vec![r(0.0); layout.size];
        stamp_all(&ctx, &mut m, &mut next);
        let mut sym = m.factorize_symbolic();
        sym.set_allow_dynamic(true);
        if !sym.refactor(&m) {
            return None;
        }
        let mut scratch = vec![r(0.0); layout.size];
        sym.solve(&mut next, &mut scratch);
        let settled = x
            .iter()
            .zip(next.iter())
            .all(|(a, b)| (a.0 - b.0).abs() <= 1e-9 + 1e-6 * b.0.abs());
        x = next;
        if settled {
            return Some(x);
        }
    }
    None
}

const GND: NodeId = NodeId(0);

fn vdc(c: &mut Circuit<Real>, name: &str, p: NodeId, volts: f64) -> DeviceId {
    c.add(Device::Vsource { name: name.into(), p, n: GND, kind: SourceKind::Dc(r(volts)) })
}

fn res(c: &mut Circuit<Real>, name: &str, a: NodeId, b: NodeId, ohms: f64) -> DeviceId {
    c.add(Device::Resistor { name: name.into(), a, b, ohms: r(ohms), tc1: None })
}

fn operating_point(c: &Circuit<Real>, layout: &Layout<Real>) -> OpPoint<Real> {
    let opts = options();
    let state = ReactiveState::new(c.devices.len());
    let start = vec![r(0.0); layout.size];
    let coeffs = IntegCoeffs::for_step(opts.integration, r(1.0), true);
    let x = newton(c, layout, &opts, &state, &start, coeffs, true).expect("operating point");
    OpPoint { x, worst: r(0.0), at: 0, staged: false }
}

/// Sweep `inner`, and `outer` around it, over linear circuits.
fn sound() -> Objections {
    Objections { tolerances: None, window: None, method: None, residual: None }
}

fn sweep(
    c: &Circuit<Real>,
    inner: (&str, f64, f64, f64),
    outer: Option<(&str, f64, f64, f64)>,
    probes: &Vec<Probe>,
) -> SimOutput<Real> {
    let layout = Layout::new(c);
    let values = dc_sweep_values(r(inner.1), r(inner.2), r(inner.3));
    let around = outer.map(|o| dc_sweep_values(r(o.1), r(o.2), r(o.3)));
    let points = sweep_points(&values, &around);
    let mut live = c.duplicate();
    let mut rows = Vec::new();
    for (v, w) in points.iter() {
        set_source_value(&mut live, resolve_branch_device(c, inner.0).unwrap(), *v);
        if let (Some(o), Some(w)) = (outer, w) {
            set_source_value(&mut live, resolve_branch_device(c, o.0).unwrap(), *w);
        }
        let point = operating_point(&live, &layout);
        let out = op_output(&live, &layout, &point, "0", &options(), &sound(), probes).unwrap();
        rows.push(out.rows[0].clone());
    }
    let name = outer.map(|o| o.0.to_string());
    dc_output(inner.0, &name, &points, &rows, None, &options(), &None, probes).unwrap()
}

#[test]
fn dc_sweep_walks_the_source_and_reads_probes() {
    let mut c = Circuit::new();
    let a = c.node("in");
    vdc(&mut c, "Vin", a, 0.0);
    let b = c.node("out");
    c.add(Device::Vcvs { name: "E1".into(), p: b, n: GND, cp: a, cn: GND, gain: r(2.0) });
    res(&mut c, "Rl", b, GND, 1e3);
    let probes = vec![Probe::NodeVoltage("out".into())];
    let out = sweep(&c, ("Vin", 0.0, 3.0, 1.0), None, &probes);
    assert_eq!(out.columns, vec!["Vin", "V(out)"]);
    assert_eq!(out.rows.len(), 4);
    for (i, row) in out.rows.iter().enumerate() {
        let vin = i as f64;
        assert!((row[0].0 - vin).abs() < 1e-9, "sweep value");
        assert!((row[1].0 - 2.0 * vin).abs() < 1e-6, "gain-2 output");
    }
}

#[test]
fn dc_sweep_includes_endpoint_under_float_drift() {
    let vals = dc_sweep_values(r(0.0), r(1.0), r(0.1));
    assert_eq!(vals.len(), 11, "must include both endpoints: {vals:?}");
    assert!((vals.last().copied().unwrap().0 - 1.0).abs() < 1e-9);
    let vals2 = dc_sweep_values(r(0.0), r(0.95), r(0.1));
    assert_eq!(vals2.len(), 10, "no phantom endpoint: {vals2:?}");
}

#[test]
fn dc_nested_sweep_concatenates_blocks() {
    let mut c = Circuit::new();
    let a = c.node("in");
    vdc(&mut c, "Vin", a, 0.0);
    let g = c.node("g");
    vdc(&mut c, "Vg", g, 0.0);
    res(&mut c, "Ri", a, GND, 1e3);
    res(&mut c, "Rg", g, GND, 1e3);
    let probes = vec![Probe::NodeVoltage("in".into())];
    let out = sweep(&c, ("Vin", 0.0, 2.0, 1.0), Some(("Vg", 0.0, 1.0, 1.0)), &probes);
    assert_eq!(out.rows.len(), 6);
    let axis: Vec<f64> = out.rows.iter().map(|row| row[0].0).collect();
    assert_eq!(axis, vec![0.0, 1.0, 2.0, 0.0, 1.0, 2.0]);
    assert_eq!(out.columns, vec!["Vin", "V(in)", "Vg"]);
    let outer: Vec<f64> = out.rows.iter().map(|row| row[2].0).collect();
    assert_eq!(outer, vec![0.0, 0.0, 0.0, 1.0, 1.0, 1.0]);
}

fn lowpass() -> Circuit<Real> {
    let mut c = Circuit::new();
    let a = c.node("in");
    vdc(&mut c, "Vin", a, 1.0);
    let b = c.node("out");
    res(&mut c, "R1", a, b, 1e3);
    c.add(Device::Capacitor { name: "C1".into(), a: b, b: GND, farads: r(159.155e-9), ic: None });
    c
}

#[test]
fn ac_refuses_a_deck_with_no_ac_stimulus() {
    let probes = vec![Probe::NodeVoltage("out".into())];
    let err = plan_ac(&lowpass(), false, &probes).unwrap_err();
    assert!(
        matches!(&err, SolveError::Refused(m) if m.contains("no AC stimulus")),
        "{err:?}"
    );
}

/// The response of the divider is solved by hand at each frequency; the columns and the
/// phasors read are the library's.
#[test]
fn ac_lowpass_hits_the_corner() {
    let probes = vec![Probe::NodeVoltage("out".into())];
    let plan = plan_ac(&lowpass(), true, &probes).unwrap();
    assert_eq!(plan.columns, vec!["frequency", "V(out)", "V(out):phase_deg"]);
    let f = 1000.0;
    let k = 2.0 * std::f64::consts::PI * f * 1e3 * 159.155e-9;
    let out = (r(1.0 / (1.0 + k * k)), r(-k / (1.0 + k * k)));
    let phasors = vec![(r(0.0), r(0.0)), (r(1.0), r(0.0)), out];
    let read = read_targets(&phasors, &plan.targets);
    let (re, im) = (read[0].0 .0, read[0].1 .0);
    let (mag, phase) = (re.hypot(im), im.atan2(re).to_degrees());
    assert!((mag - std::f64::consts::FRAC_1_SQRT_2).abs() < 1e-3, "mag {mag}");
    assert!((phase + 45.0).abs() < 0.2, "phase {phase}");
}

/// What a sweep reads: phasors of nodes, their differences, ground at zero.
#[test]
fn ac_probes_read_phasors() {
    let c = lowpass();
    let probes = vec![Probe::NodeVoltage("out".into()), Probe::NodeDiff("in".into(), "GND".into())];
    assert!(plan_ac(&c, true, &probes).is_err());
    let probes = vec![
        Probe::NodeVoltage("out".into()),
        Probe::NodeDiff("in".into(), "out".into()),
        Probe::NodeVoltage("Ground".into()),
    ];
    let plan = plan_ac(&c, true, &probes).unwrap();
    assert_eq!(
        plan.columns,
        vec![
            "frequency",
            "V(out)",
            "V(out):phase_deg",
            "V(in,out)",
            "V(in,out):phase_deg",
            "V(Ground)",
            "V(Ground):phase_deg"
        ]
    );
    assert!(matches!(plan.targets[1], Target::Diff(NodeId(1), NodeId(2))));
    let phasors = vec![(r(0.0), r(0.0)), (r(1.0), r(0.0)), (r(0.5), r(-0.25))];
    assert_eq!(
        read_targets(&phasors, &plan.targets),
        vec![(r(0.5), r(-0.25)), (r(0.5), r(0.25)), (r(0.0), r(0.0))]
    );
    let current = vec![Probe::BranchCurrent("Vin".into())];
    assert!(matches!(plan_ac(&c, true, &current), Err(SolveError::Refused(m)) if m.contains("I(Vin)")));
}

/// Names are found, or refused with their text.
#[test]
fn names_resolve_or_are_refused() {
    let c = lowpass();
    assert_eq!(resolve_node(&c, "out"), Ok(NodeId(2)));
    assert_eq!(resolve_node(&c, "0"), Ok(GND));
    assert_eq!(resolve_node(&c, "GROUND"), Ok(GND));
    assert_eq!(
        resolve_node(&c, "x"),
        Err(SolveError::Invalid("no node named `x` in the deck".into()))
    );
    assert_eq!(resolve_branch_device(&c, "vIN"), Ok(DeviceId(0)));
    assert_eq!(
        resolve_branch_device(&c, "V9"),
        Err(SolveError::Invalid("no element named `V9` in the deck".into()))
    );
    let layout = Layout::new(&c);
    assert_eq!(residual_label(&c, &layout, 1), "out");
    assert_eq!(residual_label(&c, &layout, 2), "unknown #2");
    assert_eq!(
        default_probes(&c),
        vec![Probe::NodeVoltage("in".into()), Probe::NodeVoltage("out".into())]
    );
    assert_eq!(analysis_temperature(r(27.0), r(85.0)), r(85.0));
    assert_eq!(analysis_temperature(r(50.0), r(85.0)), r(50.0));
}

/// An operating point is reported with its probes, refused where it is out of balance.
#[test]
fn operating_points_are_reported_or_refused() {
    let c = lowpass();
    let layout = Layout::new(&c);
    let mut point = operating_point(&c, &layout);
    let probes = vec![
        Probe::NodeDiff("in".into(), "out".into()),
        Probe::NodeVoltage("in".into()),
        Probe::BranchCurrent("VIN".into()),
    ];
    let out = op_output(&c, &layout, &point, "0", &options(), &sound(), &probes).unwrap();
    assert_eq!(out.columns, vec!["V(in,out)", "V(in)", "I(VIN)"]);
    assert!(out.rows[0][0].0.abs() < 1e-6 && (out.rows[0][1].0 - 1.0).abs() < 1e-9);
    assert!(out.time.is_none() && out.error_budget.window.is_none());
    assert_eq!(out.error_budget.reltol, r(1e-3));
    assert_eq!(out.column("V(in)").unwrap().len(), 1);
    assert!(out.column("V(nope)").is_none());
    let on_resistor = vec![Probe::BranchCurrent("R1".into())];
    assert_eq!(
        op_output(&c, &layout, &point, "0", &options(), &sound(), &on_resistor).unwrap_err(),
        SolveError::Invalid(
            "element `R1` carries no branch current (only V-sources and inductors do)".into()
        )
    );
    point.worst = r(2e-6);
    point.at = 1;
    assert_eq!(
        op_output(&c, &layout, &point, "2.000e-6", &options(), &sound(), &probes).unwrap_err(),
        SolveError::NonConvergence {
            message: ".op did not converge: KCL residual 2.000e-6 A at unknown #1 exceeds 1e-6 A"
                .into(),
            phase: SolvePhase::Dc,
            time: None,
            dt: None,
            iterations: None,
            blame: None,
        }
    );
    point.worst = r(f64::NAN);
    point.staged = true;
    let err = op_output(&c, &layout, &point, "NaN", &options(), &sound(), &probes).unwrap_err();
    assert!(matches!(&err, SolveError::NonConvergence { message, .. }
        if message.contains("relaxed surrogate")));
}

/// Waveforms become rows; ground is zero, a missing current is refused.
#[test]
fn transients_become_rows() {
    let c = lowpass();
    let layout = Layout::new(&c);
    let waves = || TranWaves {
        time: vec![r(0.0), r(1.0)],
        node_voltages: vec![
            vec![r(0.0), r(0.0)],
            vec![r(1.0), r(1.0)],
            vec![r(0.25), r(0.5)],
        ],
        branch_currents: vec![("Vin".to_string(), vec![r(-3.0), r(-2.0)])],
    };
    let probes = vec![
        Probe::NodeDiff("in".into(), "out".into()),
        Probe::NodeVoltage("0".into()),
        Probe::BranchCurrent("vin".into()),
    ];
    let last = Some((r(1e-9), 1));
    let out = tran_output(&c, &layout, waves(), r(1.0), last, &options(), &sound(), &probes).unwrap();
    assert_eq!(out.rows[0], vec![r(0.75), r(0.0), r(-3.0)]);
    assert_eq!(out.rows[1], vec![r(0.5), r(0.0), r(-2.0)]);
    assert_eq!(out.time, Some(vec![r(0.0), r(1.0)]));
    assert_eq!(out.error_budget.window.as_ref().unwrap().stop, r(1.0));
    assert_eq!(out.error_budget.residual.as_ref().unwrap().label, "out");
    let unknown = vec![Probe::BranchCurrent("L7".into())];
    assert!(tran_output(&c, &layout, waves(), r(1.0), None, &options(), &sound(), &unknown).is_err());
    let nan = Some((r(f64::NAN), 0));
    let out = tran_output(&c, &layout, waves(), r(1.0), nan, &options(), &sound(), &probes).unwrap();
    assert!(out.error_budget.residual.is_none());
    let mut short = waves();
    short.node_voltages.pop();
    let missing = vec![Probe::NodeVoltage("out".into())];
    assert_eq!(
        tran_output(&c, &layout, short, r(1.0), None, &options(), &sound(), &missing).unwrap_err(),
        SolveError::Internal("node `out` has no waveform".into())
    );
}

/// The worst point of a sweep is the first of the largest.
#[test]
fn the_worst_point_is_found() {
    assert_eq!(worst_point::<Real>(&vec![]), None);
    assert_eq!(worst_point(&vec![r(1.0), r(3.0), r(3.0), r(2.0)]), Some(1));
    let points = sweep_points(&vec![r(4.0)], &None);
    let worst = Some(WorstResidual { max_abs: r(3.0), label: "out".to_string() });
    let out = dc_output("Vx", &None, &points, &vec![vec![]], worst, &options(), &None, &vec![])
        .unwrap();
    assert_eq!(out.rows, vec![vec![r(4.0)]]);
    assert_eq!(out.error_budget.residual.unwrap().label, "out");
}

/// A probe reads back from its label.
#[test]
fn labels_read_back() {
    for p in [
        Probe::NodeVoltage("out".into()),
        Probe::NodeDiff("a".into(), "b".into()),
        Probe::BranchCurrent("V1".into()),
    ] {
        assert_eq!(Probe::parse(&p.label()), Ok(p));
    }
}

#[test]
fn parse_probe_forms() {
    assert_eq!(
        Probe::parse("V(out)").unwrap(),
        Probe::NodeVoltage("out".into())
    );
    assert_eq!(
        Probe::parse("v(a,b)").unwrap(),
        Probe::NodeDiff("a".into(), "b".into())
    );
    assert_eq!(
        Probe::parse("I(V1)").unwrap(),
        Probe::BranchCurrent("V1".into())
    );
    assert_eq!(
        Probe::parse("n20").unwrap(),
        Probe::NodeVoltage("n20".into())
    );
    assert!(Probe::parse("V(a").is_err());
    assert!(Probe::parse("X(a)").is_err());
}

/// What is held against the evidence of a run refuses it, the window first.
#[test]
fn objections_refuse_a_run() {
    let c = lowpass();
    let layout = Layout::new(&c);
    let point = operating_point(&c, &layout);
    let probes = vec![Probe::NodeVoltage("out".into())];
    let text = || Some("reltol is negative".to_string());
    let refused = SolveError::Invalid("invalid solver error budget: reltol is negative".into());
    assert_eq!(error_budget(&options(), &text()).unwrap_err(), refused);
    assert_eq!(error_budget(&options(), &None).unwrap().reltol, r(1e-3));
    let tolerances = Objections { tolerances: text(), ..sound() };
    let run = |o: &Objections| op_output(&c, &layout, &point, "0", &options(), o, &probes);
    assert_eq!(run(&tolerances).unwrap_err(), refused);
    let residual = Objections { residual: Some("no label".into()), ..sound() };
    assert_eq!(
        run(&residual).unwrap_err(),
        SolveError::Internal("invalid residual: no label".into())
    );
    let march = |o: &Objections, last: Option<(Real, usize)>| {
        let waves = TranWaves {
            time: vec![r(0.0)],
            node_voltages: vec![vec![r(0.0)], vec![r(1.0)], vec![r(0.5)]],
            branch_currents: vec![],
        };
        tran_output(&c, &layout, waves, r(1.0), last, &options(), o, &probes)
    };
    assert_eq!(march(&tolerances, None).unwrap_err(), refused);
    let all = Objections {
        window: Some("empty".into()),
        method: Some("odd".into()),
        ..Objections { tolerances: text(), ..sound() }
    };
    assert_eq!(
        march(&all, None).unwrap_err(),
        SolveError::Internal("invalid transient window: empty".into())
    );
    let method = Objections { window: None, ..all };
    assert_eq!(
        march(&method, None).unwrap_err(),
        SolveError::Internal("invalid transient method: odd".into())
    );
    assert!(march(&residual, None).is_ok());
    assert!(march(&residual, Some((r(f64::NAN), 0))).is_ok());
    assert_eq!(
        march(&residual, Some((r(1e-9), 0))).unwrap_err(),
        SolveError::Internal("invalid residual: no label".into())
    );
    let points = sweep_points(&vec![r(4.0)], &None);
    let rows = vec![vec![r(0.5)]];
    let swept = dc_output("Vx", &None, &points, &rows, None, &options(), &text(), &probes);
    assert_eq!(swept.unwrap_err(), refused);
}
