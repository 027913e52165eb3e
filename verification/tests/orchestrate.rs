use hauksbee_solve::circuit::{Circuit, Device, DeviceId, DiodeModel, NodeId, SourceKind};
use hauksbee_solve::error::SolveError;
use hauksbee_solve::options::{DcInit, RobustnessLadder, StepControl, Strategy};
use hauksbee_solve::orchestrate::capture::assembly::CaptureRun;
use hauksbee_solve::orchestrate::capture::attempt::{first_attempt, next_attempt, Attempt, Death};
use hauksbee_solve::orchestrate::capture::blocks::{
    adjacent_blocks, companions, scope, ConductionGraph, Fragmentation, SenseEdge, Walk,
};
use hauksbee_solve::orchestrate::capture::circuit::{capture_circuit, select_devices, Drive};
use hauksbee_solve::orchestrate::capture::cluster::{cluster, cluster_blocks};
use hauksbee_solve::orchestrate::capture::composed::{
    balance_group_fragments, cascade_seeds, feed_source_value, seed_value, Composed, Phase,
};
use hauksbee_solve::orchestrate::capture::outcome::{
    boundary_tolerance, dead_capture_outcomes, out_of_scope_outcomes,
};
use hauksbee_solve::orchestrate::capture::plan::{plan_capture, StiffPlan};
use hauksbee_solve::orchestrate::capture::relax::{Next, Relaxation};
use hauksbee_solve::orchestrate::capture::rest::{
    note_rest, pin_signals, point_voltages, seeds_at_point, seeds_from_feeds,
};
use hauksbee_solve::orchestrate::capture::verdict::{composed_outcomes, refused_rails};
use hauksbee_solve::orchestrate::grid::{
    constant_train, lerp_at, resample, shifted_residual, uniform_grid, Residual, Waveforms,
};
use hauksbee_solve::orchestrate::ramp::{next_rung, ramp_all_sources, window_of};
use hauksbee_solve::orchestrate::staged::certificate::{
    composed_tear_record, record_outcomes, to_board, Evidence, RefusedAnalysis, TearCertificate,
    TearKind, TearRecord, ToleranceClaim,
};
use hauksbee_solve::orchestrate::staged::dag::{Absorption, FreeTear, StageDag};
use hauksbee_solve::orchestrate::staged::group::{
    choose_route, clear_to_run, extract_subcircuit, first_group_attempt, group_failure,
    next_group_attempt, remap_tear, retry_failure, sample_names, select_group_ladder,
    BalanceTearCandidate, GroupAttempt, Route,
};
use hauksbee_solve::orchestrate::staged::run::{
    assemble_staged, capture_outbound, describe_refusal, probe_group, replay_points,
    summarize_stiff_refusal, Captured,
};
use hauksbee_solve::orchestrate::tear::RailTear;
use hauksbee_solve::orchestrate::{BoundaryKind, CapturePolicy, ComposedPolicy, StiffOutcome};
use hauksbee_solve::partition::analyze::{Island, Partition};
use hauksbee_solve::scalar::Scalar;
use hauksbee_solve::system::Layout;
use std::collections::HashMap;

#[derive(Clone, Copy, Debug, PartialEq)]
struct Real(f64);

impl Scalar for Real {
    fn exact() -> bool { false }
    fn spec_zero() -> Self { Self::zero() }
    fn spec_int(n: i64) -> Self { Self::from_int(n) }
    fn spec_plus(self, o: Self) -> Self { self.plus(o) }
    fn spec_minus(self, o: Self) -> Self { self.minus(o) }
    fn spec_times(self, o: Self) -> Self { self.times(o) }
    fn spec_over(self, o: Self) -> Self { self.over(o) }
    fn spec_negated(self) -> Self { self.negated() }
    fn spec_abs(self) -> Self { self.abs() }
    fn spec_sqrt(self) -> Self { self.sqrt() }
    fn spec_exp(self) -> Self { self.exp() }
    fn spec_ln(self) -> Self { self.ln() }
    fn spec_ln_1p(self) -> Self { self.ln_1p() }
    fn spec_tanh(self) -> Self { self.tanh() }
    fn spec_pow(self, o: Self) -> Self { self.pow(o) }
    fn spec_less(self, o: Self) -> bool { self.less(o) }
    fn spec_at_most(self, o: Self) -> bool { self.at_most(o) }
    fn spec_is_zero(self) -> bool { self.is_zero() }
    fn spec_finite(self) -> bool { self.finite() }
    fn laws(_: Self, _: Self, _: Self) {}
    fn integer_laws(_: i64) {}
    fn zero() -> Self { Real(0.0) }
    fn from_int(n: i64) -> Self { Real(n as f64) }
    fn plus(self, o: Self) -> Self { Real(self.0 + o.0) }
    fn minus(self, o: Self) -> Self { Real(self.0 - o.0) }
    fn times(self, o: Self) -> Self { Real(self.0 * o.0) }
    fn over(self, o: Self) -> Self { Real(self.0 / o.0) }
    fn negated(self) -> Self { Real(-self.0) }
    fn abs(self) -> Self { Real(self.0.abs()) }
    fn sqrt(self) -> Self { Real(self.0.sqrt()) }
    fn exp(self) -> Self { Real(self.0.exp()) }
    fn ln(self) -> Self { Real(self.0.ln()) }
    fn ln_1p(self) -> Self { Real(self.0.ln_1p()) }
    fn tanh(self) -> Self { Real(self.0.tanh()) }
    fn pow(self, o: Self) -> Self { Real(self.0.powf(o.0)) }
    fn less(self, o: Self) -> bool { self.0 < o.0 }
    fn at_most(self, o: Self) -> bool { self.0 <= o.0 }
    fn is_zero(self) -> bool { self.0 == 0.0 }
    fn finite(self) -> bool { self.0.is_finite() }
}

fn r(v: f64) -> Real {
    Real(v)
}

fn rs(v: &[f64]) -> Vec<Real> {
    v.iter().map(|x| Real(*x)).collect()
}

const GND: NodeId = NodeId(0);

fn res(c: &mut Circuit<Real>, name: &str, a: NodeId, b: NodeId, ohms: f64) -> DeviceId {
    c.add(Device::Resistor { name: name.into(), a, b, ohms: r(ohms), tc1: None })
}

fn vdc(c: &mut Circuit<Real>, name: &str, p: NodeId, volts: f64) -> DeviceId {
    c.add(Device::Vsource { name: name.into(), p, n: GND, kind: SourceKind::Dc(r(volts)) })
}

fn diode(c: &mut Circuit<Real>, name: &str, a: NodeId, k: NodeId) -> DeviceId {
    let model = DiodeModel {
        is: r(1e-14),
        is_hot: r(1e-14),
        n: r(1.0),
        rs: r(0.0),
        cjo: r(0.0),
        vj: r(1.0),
        m: r(0.5),
        tt: r(0.0),
        bv: None,
    };
    c.add(Device::Diode { name: name.into(), a, k, model })
}

fn comparator(
    c: &mut Circuit<Real>,
    name: &str,
    out: NodeId,
    inp: NodeId,
    inn: NodeId,
    hysteresis: f64,
) -> DeviceId {
    c.add(Device::Comparator {
        name: name.into(),
        out,
        inp,
        inn,
        out_lo: r(0.0),
        out_hi: r(5.0),
        hysteresis: r(hysteresis),
    })
}

fn sw(
    c: &mut Circuit<Real>,
    name: &str,
    a: NodeId,
    b: NodeId,
    ctrl: NodeId,
    (von, voff): (f64, f64),
    ron: f64,
) -> DeviceId {
    c.add(Device::VSwitch {
        name: name.into(),
        a,
        b,
        ctrl_p: ctrl,
        ctrl_n: GND,
        von: r(von),
        voff: r(voff),
        ron: r(ron),
        roff: r(1e9),
    })
}

fn volts(x: Residual<Real>) -> Option<f64> {
    match x {
        Residual::Volts(v) => Some(v.0),
        _ => None,
    }
}

#[test]
fn ladder_selection_trims_only_structurally_dead_grants() {
    let full = RobustnessLadder::full();
    let mut lin = Circuit::new();
    let (a, b) = (lin.node("a"), lin.node("b"));
    vdc(&mut lin, "V", a, 5.0);
    res(&mut lin, "R1", a, b, 1e3);
    res(&mut lin, "R2", b, GND, 1e3);
    let sel = select_group_ladder(&lin, &full);
    assert!(!sel.has(Strategy::LineSearch));
    assert!(!sel.has(Strategy::EventFreeze));
    for s in [
        Strategy::DynamicPivot,
        Strategy::DynamicPivotEveryStep,
        Strategy::Ptc,
        Strategy::ResidualAccept,
        Strategy::TransientDyn,
    ] {
        assert!(sel.has(s), "{s:?}");
    }

    let mut dio = lin.duplicate();
    let c = dio.node("c");
    diode(&mut dio, "D", b, c);
    res(&mut dio, "R3", c, GND, 1e3);
    let sel = select_group_ladder(&dio, &full);
    assert!(sel.has(Strategy::LineSearch));
    assert!(!sel.has(Strategy::EventFreeze));

    let mut cmp = dio.duplicate();
    let o = cmp.node("o");
    comparator(&mut cmp, "K", o, b, c, 0.1);
    let sel = select_group_ladder(&cmp, &full);
    assert!(sel.has(Strategy::EventFreeze) && sel.has(Strategy::LineSearch));

    let none = RobustnessLadder::none();
    assert_eq!(select_group_ladder(&lin, &none), none);
}

fn certificate(sound: bool, driven: Vec<NodeId>) -> TearCertificate<Real> {
    TearCertificate { records: vec![], refusals: vec![], exogenous_boundaries: driven, sound }
}

#[test]
fn unsound_or_adaptive_runs_are_refused() {
    let mut c = Circuit::new();
    let (x, y) = (c.node("x"), c.node("y"));
    vdc(&mut c, "V", x, 1.0);
    let sel = c.node("sel_floating");
    sw(&mut c, "S", x, y, sel, (2.0, 1.0), 10.0);
    res(&mut c, "R", y, GND, 1e3);
    let fixed = StepControl::Fixed { dt: r(1e-7) };
    assert!(clear_to_run(&c, &certificate(false, vec![]), "floating", fixed).is_err());
    let adaptive = StepControl::Adaptive { dt_initial: r(1e-9), dt_min: r(1e-15), dt_max: r(1e-3) };
    assert!(clear_to_run(&c, &certificate(true, vec![]), "", adaptive).is_err());
    assert_eq!(clear_to_run(&c, &certificate(true, vec![]), "", fixed), Ok(r(1e-7)));
}

/// Each refusal of a staged run, in words.
#[test]
fn refused_runs_say_why() {
    let mut c = Circuit::new();
    let (x, y) = (c.node("x"), c.node("y"));
    let fixed = StepControl::Fixed { dt: r(1.0) };
    assert_eq!(
        clear_to_run(&c, &certificate(false, vec![x]), "why", fixed),
        Err(SolveError::Refused(
            "staged execution refused: the decomposition is unsound\nwhy".into()
        ))
    );
    let err = clear_to_run(&c, &certificate(true, vec![x, y]), "", fixed).unwrap_err();
    assert!(matches!(&err, SolveError::Refused(m) if m.contains("boundaries [x, y] are")), "{err:?}");
}

#[test]
fn composed_records_never_overclaim_a_held_rail() {
    let outcome = |kind, sag_v: f64, note: &'static str| StiffOutcome {
        node: NodeId(7),
        kind,
        sag_v: Residual::Volts(r(sag_v)),
        tol_v: Some(r(1e-2)),
        accepted: true,
        bootstrapped: true,
        capture_growth: 0,
        note,
    };
    let n = NodeId(42);
    let balanced =
        composed_tear_record(&outcome(BoundaryKind::BalancedRail, 0.0, "balanced rail"), n);
    assert_eq!(balanced.kind, TearKind::Balance);
    assert!(matches!(balanced.evidence, Evidence::BalanceEquation));
    assert!(matches!(balanced.tolerance, ToleranceClaim::RoundOff));
    assert_eq!(balanced.node, n);

    for note in ["held rail (stiff-supply feed)", "balanced rail"] {
        let held = composed_tear_record(&outcome(BoundaryKind::HeldRail, 0.0, note), n);
        assert_eq!(held.kind, TearKind::Stiff, "{note}");
        assert!(matches!(held.evidence, Evidence::AssumedFeedHold));
        assert!(matches!(held.tolerance, ToleranceClaim::Unmeasured));
    }

    let signal = composed_tear_record(&outcome(BoundaryKind::Signal, 3.5e-7, ""), n);
    assert_eq!(signal.kind, TearKind::Stiff);
    assert!(matches!(
        signal.evidence,
        Evidence::MeasuredStiffness { sag_v: Residual::Volts(s), tol_v: Some(t) }
            if s == r(3.5e-7) && t == r(1e-2)
    ));
    assert!(matches!(
        signal.tolerance,
        ToleranceClaim::Stiffness { sag_v: Residual::Volts(s) } if s == r(3.5e-7)
    ));
}

/// Free tears get the capture grid's step, measured records join, torn supplies are
/// withdrawn from integrity claims.
#[test]
fn certificates_are_completed() {
    let free = |dt: Option<Real>| TearRecord {
        node: NodeId(3),
        kind: TearKind::Free,
        evidence: Evidence::SenseOnly,
        tolerance: ToleranceClaim::CaptureGrid { dt },
        upstream: Some(0),
        downstream: Some(1),
    };
    let mut cert = certificate(true, vec![]);
    cert.records.push(free(None));
    cert.complete(r(0.5), &vec![], &vec![]);
    assert!(matches!(
        cert.records[0].tolerance,
        ToleranceClaim::CaptureGrid { dt: Some(d) } if d == r(0.5)
    ));
    assert!(cert.refusals.is_empty());
    let held = TearRecord {
        node: NodeId(9),
        kind: TearKind::Stiff,
        evidence: Evidence::AssumedFeedHold,
        tolerance: ToleranceClaim::Unmeasured,
        upstream: None,
        downstream: None,
    };
    cert.complete(r(0.5), &vec![held], &vec![NodeId(9), NodeId(4)]);
    assert_eq!(cert.records.len(), 2);
    assert_eq!(
        cert.refusals,
        vec![(RefusedAnalysis::SupplyIntegrityOnTornRail, vec![NodeId(4), NodeId(9)])]
    );
}

/// The step grid ends on the stop time; series are read by straight lines and held
/// outside.
#[test]
fn grids_and_series() {
    assert_eq!(uniform_grid(r(0.5), r(1.25)), rs(&[0.0, 0.5, 1.0, 1.25]));
    assert_eq!(uniform_grid(r(0.5), r(1.0)), rs(&[0.0, 0.5, 1.0]));
    let (t, v) = (rs(&[0.0, 1.0, 2.0]), rs(&[0.0, 10.0, 20.0]));
    assert_eq!(lerp_at(&t, &v, r(0.25)), r(2.5));
    assert_eq!(lerp_at(&t, &v, r(1.0)), r(10.0));
    assert_eq!(lerp_at(&t, &v, r(-1.0)), r(0.0));
    assert_eq!(lerp_at(&t, &v, r(9.0)), r(20.0));
    assert_eq!(lerp_at(&vec![], &vec![], r(1.0)), r(0.0));
    let wf = Waveforms { time: t, node_voltages: vec![rs(&[0.0, 0.0, 0.0]), v] };
    assert_eq!(resample(&wf, 1, &rs(&[0.5, 1.5])), rs(&[5.0, 15.0]));
    assert_eq!(constant_train(r(2.0), 3), rs(&[2.0, 2.0, 2.0]));
}

/// A train has no residual against itself, nor against itself a sample late.
#[test]
fn residuals_allow_for_a_shift() {
    let a = rs(&[0.0, 5.0, 5.0, 5.0]);
    assert_eq!(volts(shifted_residual(&a, &a)), Some(0.0));
    let late = rs(&[0.0, 0.0, 5.0, 5.0]);
    assert_eq!(volts(shifted_residual(&a, &late)), Some(0.0));
    let off = rs(&[1.0, 6.0, 6.0, 6.0]);
    assert_eq!(volts(shifted_residual(&a, &off)), Some(1.0));
}

/// Sources rise over the window; replay pins do not.
#[test]
fn sources_ramp_and_pins_do_not() {
    let mut c = Circuit::new();
    let (a, b) = (c.node("a"), c.node("b"));
    vdc(&mut c, "V1", a, 5.0);
    vdc(&mut c, "VREPLAY_0", b, 1.0);
    res(&mut c, "R1", a, b, 1e3);
    let up = ramp_all_sources(&c, r(0.25));
    assert!(matches!(
        &up.devices[0],
        Device::Vsource { kind: SourceKind::Ramped(inner, w), .. }
            if *w == r(0.25) && matches!(**inner, SourceKind::Dc(v) if v == r(5.0))
    ));
    assert!(matches!(&up.devices[1], Device::Vsource { kind: SourceKind::Dc(v), .. } if *v == r(1.0)));
    assert_eq!(up.devices[2].name(), "R1");
    assert_eq!(window_of(r(1.0), r(10000.0), 200), r(200.0));
    assert_eq!(window_of(r(1.0), r(100.0), 200), r(10.0));
    assert_eq!(next_rung(r(1.0), r(10000.0), 1), Some((1, r(20.0))));
    assert_eq!(next_rung(r(1.0), r(10.0), 0), None);
    assert_eq!(next_rung(r(1.0), r(10000.0), 3), None);
}

/// The ladder of attempts at a capture, to its end.
#[test]
fn attempts_end() {
    let (dt, tstop) = (r(1.0), r(10000.0));
    let first = first_attempt(dt, tstop, true);
    assert!(matches!(first, Attempt::Adaptive { window } if window == r(20.0)));
    assert!(matches!(first_attempt(dt, tstop, false), Attempt::Fixed));
    let mut last = next_attempt(dt, tstop, first, Death::Later).unwrap();
    assert!(matches!(last, Attempt::Fixed));
    assert!(next_attempt(dt, tstop, last, Death::Later).is_none());
    for w in [200.0, 20.0, 2.0] {
        last = next_attempt(dt, tstop, last, Death::AtOperatingPoint).unwrap();
        assert!(matches!(last, Attempt::Ramp { window, .. } if window == r(w)), "{last:?}");
    }
    assert!(next_attempt(dt, tstop, last, Death::AtOperatingPoint).is_none());
}

/// A torn group is solved fused next, and ramped only from an operating point.
#[test]
fn group_attempts_end() {
    let (dt, tstop) = (r(1.0), r(10000.0));
    assert!(matches!(first_group_attempt::<Real>(0), GroupAttempt::Fused));
    let torn = first_group_attempt::<Real>(2);
    let fused = next_group_attempt(dt, tstop, DcInit::Solve, torn, Death::Later).unwrap();
    assert!(matches!(fused, GroupAttempt::Fused));
    assert!(next_group_attempt(dt, tstop, DcInit::Solve, fused, Death::Later).is_none());
    let death = Death::AtOperatingPoint;
    assert!(next_group_attempt(dt, tstop, DcInit::FromZero, fused, death).is_none());
    let ramp = next_group_attempt(dt, tstop, DcInit::Solve, fused, death).unwrap();
    assert!(matches!(ramp, GroupAttempt::Ramp { rung: 0, window } if window == r(200.0)));
}

/// Two comparators in a row: a block on either side of the candidate `m`, a third that
/// is only sensed.
fn chain() -> (Circuit<Real>, ConductionGraph, Fragmentation) {
    let mut c = Circuit::new();
    let (a, m, s) = (c.node("a"), c.node("m"), c.node("s"));
    vdc(&mut c, "V1", a, 5.0);
    res(&mut c, "R1", a, m, 1e3);
    sw(&mut c, "S1", m, GND, s, (2.0, 1.0), 10.0);
    res(&mut c, "R2", s, a, 1e3);
    let graph = ConductionGraph {
        islands: vec![vec![DeviceId(0), DeviceId(1), DeviceId(2), DeviceId(3)]],
        node_island: vec![None, Some(0), Some(0), Some(0)],
        sense_edges: vec![SenseEdge { device: DeviceId(2), node: s }],
    };
    let frag = Fragmentation {
        device_block: vec![Some(0), Some(0), Some(1), Some(2)],
        node_block: vec![None, Some(0), None, Some(2)],
        count: 3,
    };
    (c, graph, frag)
}

/// What a capture of a candidate holds: its neighbours, and the sensed generation.
#[test]
fn captures_grow_by_sensing() {
    let (c, graph, frag) = chain();
    let cand = NodeId(2);
    assert_eq!(scope(&graph, &vec![cand, NodeId(1)]), Ok(0));
    assert_eq!(scope(&graph, &vec![GND]), Err("a candidate nobody conducts"));
    assert_eq!(adjacent_blocks(&c, &frag, cand), vec![true, true, false]);
    let roomy = CapturePolicy { max_growth_blocks: 4, max_block_devices: 8 };
    let walk = |policy| Walk { sub: &c, graph: &graph, frag: &frag, cand, policy };
    assert_eq!(walk(roomy).grow(), (vec![true, true, true], 1));
    let none = CapturePolicy { max_growth_blocks: 0, max_block_devices: 8 };
    assert_eq!(walk(none).grow(), (vec![true, true, false], 0));
    let small = CapturePolicy { max_growth_blocks: 4, max_block_devices: 0 };
    assert_eq!(walk(small).grow(), (vec![true, true, false], 0));
    let plan = plan_capture(&c, &graph, &frag, &vec![cand], none).unwrap();
    assert_eq!(plan.clusters, vec![vec![0]]);
    assert_eq!(plan.blocks, vec![vec![true, true, false]]);
    assert!(companions(&c, &graph, 0).is_empty());
}

/// Candidates across islands are out of scope.
#[test]
fn candidates_across_islands_are_out_of_scope() {
    let (_, mut graph, _) = chain();
    graph.islands.push(vec![]);
    graph.node_island[3] = Some(1);
    assert_eq!(
        scope(&graph, &vec![NodeId(2), NodeId(3)]),
        Err("candidates span multiple conduction islands")
    );
    let out = out_of_scope_outcomes::<Real>(&vec![NodeId(2), NodeId(3)], "why");
    assert_eq!(out.len(), 2);
    assert!(!out[0].accepted && out[1].note == "why");
}

/// Captures that share a block which one of them grew into are clustered, transitively;
/// neighbours that share a load are not.
#[test]
fn overlapping_captures_are_clustered() {
    let sets = vec![
        vec![true, true, false, false],
        vec![false, true, true, false],
        vec![false, false, false, true],
        vec![false, false, true, false],
    ];
    assert_eq!(cluster(&sets, &sets, 4).len(), 4);
    let plain = vec![
        vec![true, false, false, false],
        vec![false, true, false, false],
        vec![false, false, false, true],
        vec![false, false, true, false],
    ];
    let clusters = cluster(&sets, &plain, 4);
    assert_eq!(clusters.len(), 2);
    assert_eq!(clusters[0], vec![0, 1, 3]);
    assert_eq!(clusters[1], vec![2]);
    assert_eq!(cluster_blocks(&sets, &clusters[0], 4), vec![true, true, true, false]);
}

/// A capture's circuit: its devices, and pins on the boundary it does not solve.
#[test]
fn capture_circuits_pin_the_others() {
    let (c, _, frag) = chain();
    let ids = select_devices(&c, &frag, &vec![false, true, false], &vec![NodeId(2)], &vec![]);
    assert!(ids.contains(&DeviceId(2)), "{ids:?}");
    let (grid, rest, held) = (rs(&[0.0, 1.0]), rs(&[0.0, 5.0, 2.0, 3.0]), vec![]);
    let drive = Drive { grid: &grid, trains: None, rest: &rest, held: &held };
    let cap = capture_circuit(&c, &ids, &vec![NodeId(2)], &vec![NodeId(2), NodeId(3)], &drive);
    let local = NodeId(cap.g2l[&3]);
    let pins: Vec<&Device<Real>> = cap
        .circuit
        .devices
        .iter()
        .filter(|d| matches!(d, Device::Vsource { p, .. } if *p == local))
        .collect();
    assert_eq!(pins.len(), 1);
    assert!(matches!(pins[0], Device::Vsource { kind: SourceKind::Dc(v), .. } if *v == r(3.0)));
}

fn two_clusters() -> StiffPlan {
    StiffPlan {
        candidates: vec![NodeId(1), NodeId(2)],
        growth: vec![0, 0],
        clusters: vec![vec![0], vec![1]],
        blocks: vec![vec![true, false], vec![false, true]],
    }
}

/// Two clusters relax until no boundary moves; every accepted one is within its
/// tolerance.
#[test]
fn relaxations_settle_within_tolerance() {
    let plan = two_clusters();
    let mut relax = Relaxation::new(&plan, rs(&[0.0, 1.0, 2.0]), r(1e-3), true, 2);
    let train = |v: f64| vec![rs(&[v, v])];
    let mut solved = 0;
    while let Next::Capture(k) = relax.next(&plan) {
        relax.absorb(&plan, train(if k == 0 { 1.5 } else { 2.5 }));
        solved += 1;
    }
    assert_eq!(solved, 4);
    assert_eq!(relax.next(&plan), Next::Accept);
    let out = relax.outcomes(&plan);
    assert!(out[0].accepted && out[1].accepted && out[0].bootstrapped);
    assert_eq!(volts(out[0].sag_v), Some(0.0));
    assert_eq!(out[1].tol_v, Some(boundary_tolerance(r(1e-3), r(2.0))));
    assert_eq!(boundary_tolerance(r(1e-3), r(0.5)), r(10.0 * 1e-3 * 1.0));
}

/// A boundary that keeps moving is refused when the rounds are spent.
#[test]
fn restless_relaxations_are_refused() {
    let plan = two_clusters();
    let mut relax = Relaxation::new(&plan, rs(&[0.0, 1.0, 2.0]), r(1e-3), false, 2);
    let mut level = 0.0;
    let mut solved = 0;
    while let Next::Capture(_) = relax.next(&plan) {
        level += 1.0;
        relax.absorb(&plan, vec![rs(&[level, level])]);
        solved += 1;
        assert!(solved < 1000);
    }
    assert_eq!(relax.next(&plan), Next::Refuse);
    assert!(!relax.outcomes(&plan)[0].accepted);
}

/// A lone cluster needs no second round.
#[test]
fn a_lone_cluster_is_done_at_once() {
    let plan = StiffPlan {
        candidates: vec![NodeId(1)],
        growth: vec![2],
        clusters: vec![vec![0]],
        blocks: vec![vec![true]],
    };
    let mut relax = Relaxation::new(&plan, rs(&[0.0, 1.0]), r(1e-3), true, 1);
    relax.absorb(&plan, vec![rs(&[7.0])]);
    assert_eq!(relax.next(&plan), Next::Accept);
    let out = relax.outcomes(&plan);
    assert_eq!((volts(out[0].sag_v), out[0].capture_growth), (Some(0.0), 2));
}

/// Every refusal of a dead capture has words.
#[test]
fn dead_captures_have_words() {
    let out = dead_capture_outcomes(
        &vec![NodeId(1), NodeId(2)],
        NodeId(2),
        &rs(&[0.0, 1.0, 2.0]),
        r(1e-3),
        true,
    );
    assert!(matches!(out[0].sag_v, Residual::Unknown) && matches!(out[1].sag_v, Residual::Infinite));
    assert_eq!(out[0].note, "unmeasured: a sibling capture died first");
    assert_eq!(out[1].note, "capture solve died (power-ramp retry included)");
    assert!(!out[0].accepted && !out[1].accepted);
}

fn tear(rail: u32, feed: u32) -> RailTear<Real> {
    RailTear { rail: NodeId(rail), feed: NodeId(feed), shunt: DeviceId(0), r_shunt: r(100.0) }
}

/// Rails inherit the seed of their feed; a rail with its own keeps it.
#[test]
fn seeds_cascade_down_the_rails() {
    let mut c = Circuit::new();
    let (a, b) = (c.node("a"), c.node("b"));
    vdc(&mut c, "V1", a, 5.0);
    c.add(Device::Vsource { name: "V2".into(), p: GND, n: b, kind: SourceKind::Dc(r(3.0)) });
    let at_zero = rs(&[5.0, 3.0]);
    assert_eq!(feed_source_value(&c, &at_zero, a), Some(r(5.0)));
    assert_eq!(feed_source_value(&c, &at_zero, b), Some(r(-3.0)));
    assert_eq!(feed_source_value(&c, &at_zero, GND), Some(r(0.0)));
    assert_eq!(feed_source_value(&c, &at_zero, NodeId(7)), None);
    let mut seeds = vec![None, Some(r(5.0)), None, None, Some(r(2.0))];
    cascade_seeds(&mut seeds, &vec![tear(3, 2), tear(2, 1), tear(4, 1)]);
    assert_eq!(seeds, vec![None, Some(r(5.0)), Some(r(5.0)), Some(r(5.0)), Some(r(2.0))]);
    assert_eq!(seed_value(&seeds, NodeId(3)), r(5.0));
    assert_eq!(seed_value(&seeds, NodeId(9)), r(0.0));
}

/// Balance fragments a group only into blocks it can march.
#[test]
fn large_blocks_do_not_fragment() {
    let island = |linear, n: u32| Island {
        devices: (0..n).map(DeviceId).collect(),
        nodes: vec![],
        linear,
        boundary_in: vec![],
    };
    let part = |islands| Partition { islands, sources: vec![], n_nodes: 0 };
    let policy = ComposedPolicy { max_balance_block: 3 };
    assert!(balance_group_fragments(&part(vec![island(true, 9), island(false, 3)]), &policy));
    assert!(!balance_group_fragments(&part(vec![island(false, 4)]), &policy));
}

fn composed(whole: bool) -> Composed<Real> {
    let seeds = vec![None, None, Some(r(5.0))];
    Composed::new(
        vec![NodeId(1)],
        vec![tear(2, 1)],
        whole,
        r(1e-3),
        true,
        rs(&[0.0, 1.0, 0.0]),
        seeds,
        3,
        2,
    )
}

fn signal(accepted: bool) -> StiffOutcome<Real> {
    StiffOutcome {
        node: NodeId(1),
        kind: BoundaryKind::Signal,
        sag_v: Residual::Volts(r(0.0)),
        tol_v: Some(r(1e-2)),
        accepted,
        bootstrapped: true,
        capture_growth: 0,
        note: "",
    }
}

/// Rails and signals alternate until the signals are still; only a whole balance is
/// called one.
#[test]
fn alternations_settle() {
    for whole in [true, false] {
        let mut c = composed(whole);
        let mut passes = 0;
        loop {
            match c.phase {
                Phase::Balance => c.balanced(vec![rs(&[5.0, 4.9])]),
                Phase::Relax => c.relaxed(vec![rs(&[1.0, 1.0])], &vec![signal(true)]),
                _ => break,
            }
            passes += 1;
            assert!(passes < 100);
        }
        assert!(matches!(c.phase, Phase::Final | Phase::Assemble), "{:?}", c.phase);
        assert_eq!(c.trains[2], rs(&[5.0, if whole { 4.9 } else { 5.0 }]));
        let out = composed_outcomes(&c);
        let kind = if whole { BoundaryKind::BalancedRail } else { BoundaryKind::HeldRail };
        assert!(out.iter().any(|o| o.node == NodeId(2) && o.kind == kind));
        assert!(refused_rails(&c).iter().all(|o| o.kind == kind && !o.accepted));
    }
}

fn dag() -> StageDag {
    StageDag {
        groups: vec![vec![0], vec![1], vec![2]],
        stages: vec![vec![0], vec![1, 2]],
        free_tears: vec![
            FreeTear { node: NodeId(1), upstream: 0, downstream: 1 },
            FreeTear { node: NodeId(2), upstream: 1, downstream: 2 },
        ],
        drivers: vec![Absorption { driver_group: 0, consumers: vec![1] }],
        islands: vec![vec![DeviceId(0)], vec![DeviceId(1)], vec![DeviceId(2)]],
        node_island: vec![None, Some(0), Some(1), Some(2)],
    }
}

/// Absorbed drivers are not solved: their devices run with their consumers.
#[test]
fn absorbed_groups_are_not_solved() {
    let d = dag();
    assert!(d.is_absorbed(0) && !d.is_absorbed(1));
    assert_eq!(d.order(), vec![1, 2]);
    assert_eq!(d.group_devices(1), vec![DeviceId(1)]);
    assert_eq!(d.devices_of(1), vec![DeviceId(1), DeviceId(0)]);
    assert_eq!(d.devices_of(2), vec![DeviceId(2)]);
    assert_eq!(d.replay_nodes(1), vec![]);
    assert_eq!(d.replay_nodes(2), vec![NodeId(2)]);
    assert_eq!(d.group_of_node(NodeId(3)), Some(2));
    assert_eq!(d.run_of_node(NodeId(1)), Some(1));
    assert_eq!(d.run_of_node(GND), None);
}

/// A group's outbound waveforms reach its consumers, and the group waveforms the board.
#[test]
fn captures_are_replayed() {
    let d = dag();
    let mut c: Circuit<Real> = Circuit::new();
    for n in ["a", "b", "c"] {
        c.node(n);
    }
    let mut captured = Captured::new(4);
    assert_eq!(
        replay_points(&c, &d, 2, &captured).unwrap_err(),
        SolveError::Internal(
            "stage ordering broke: tear node b needed by group 2 was never captured".into()
        )
    );
    let run = |g2l: &[(u32, u32)]| CaptureRun {
        waveforms: Waveforms {
            time: rs(&[0.0, 1.0]),
            node_voltages: vec![rs(&[0.0, 0.0]), rs(&[2.0, 4.0])],
        },
        g2l: g2l.iter().copied().collect::<HashMap<u32, u32>>(),
    };
    assert_eq!(
        capture_outbound(&c, &d, 1, &run(&[]), &mut captured).unwrap_err(),
        SolveError::Internal("group 1 owns tear node b but its sub-circuit never mapped it".into())
    );
    capture_outbound(&c, &d, 1, &run(&[(2, 1)]), &mut captured).unwrap();
    let points = replay_points(&c, &d, 2, &captured).unwrap();
    assert_eq!(points, vec![(NodeId(2), vec![(r(0.0), r(2.0)), (r(1.0), r(4.0))])]);
    let runs = vec![None, Some(run(&[(2, 1)])), None];
    let board = assemble_staged(&d, &runs, 4, &rs(&[0.5, 1.0]));
    assert_eq!(board.node_voltages[2], rs(&[3.0, 4.0]));
    assert_eq!(board.node_voltages[3], rs(&[0.0, 0.0]));
}

/// Outbound tears are captured in turn; the first one that is not held is named, and
/// those before it are captured.
#[test]
fn the_first_unmapped_tear_is_named() {
    let mut d = dag();
    d.free_tears = [3, 2, 1]
        .iter()
        .map(|n| FreeTear { node: NodeId(*n), upstream: 1, downstream: 2 })
        .collect();
    let mut c: Circuit<Real> = Circuit::new();
    for n in ["a", "b", "c"] {
        c.node(n);
    }
    let run = |n: u32| CaptureRun {
        waveforms: Waveforms {
            time: rs(&[0.0, 1.0]),
            node_voltages: vec![rs(&[0.0, 0.0]), rs(&[2.0, 4.0])],
        },
        g2l: [(n, 1)].iter().copied().collect::<HashMap<u32, u32>>(),
    };
    let missing = |n: &str| {
        SolveError::Internal(format!(
            "group 1 owns tear node {n} but its sub-circuit never mapped it"
        ))
    };
    let mut captured = Captured::new(4);
    assert_eq!(capture_outbound(&c, &d, 1, &run(1), &mut captured).unwrap_err(), missing("c"));
    assert!(captured.series.iter().all(|s| s.is_none()));
    assert_eq!(capture_outbound(&c, &d, 1, &run(3), &mut captured).unwrap_err(), missing("b"));
    assert!(captured.series[3].is_some() && captured.series[1].is_none());
    assert_eq!(capture_outbound(&c, &d, 1, &run(2), &mut captured).unwrap_err(), missing("a"));
    capture_outbound(&c, &d, 1, &run(1), &mut captured).unwrap();
    capture_outbound(&c, &d, 0, &run(9), &mut captured).unwrap();
}

/// A sub-circuit carries its devices and drives what is replayed into it.
#[test]
fn groups_are_extracted_with_their_pins() {
    let mut c = Circuit::new();
    let (a, b) = (c.node("a"), c.node("b"));
    vdc(&mut c, "V1", a, 5.0);
    let r1 = res(&mut c, "R1", a, b, 1e3);
    let replay = vec![(a, vec![(r(0.0), r(1.0)), (r(1.0), r(2.0))])];
    let sub = extract_subcircuit(&c, &vec![r1], &replay);
    assert_eq!(sub.circuit.devices.len(), 2);
    assert!(matches!(
        &sub.circuit.devices[1],
        Device::Vsource { name, kind: SourceKind::Pwl(p), .. }
            if name.starts_with("VREPLAY_") && p.len() == 2
    ));
    let cand = BalanceTearCandidate {
        rail: b,
        feed: a,
        shunt: r1,
        shunt_ohms: r(1e3),
        torn: true,
    };
    let local = remap_tear(&cand, &vec![r1], &sub.g2l).unwrap();
    assert_eq!((local.rail.0, local.feed.0), (sub.g2l[&b.0], sub.g2l[&a.0]));
    assert_eq!(local.shunt, DeviceId(0));
    assert!(remap_tear(&cand, &vec![DeviceId(0)], &sub.g2l).is_none());
}

/// How a group is solved, and what is said of it.
#[test]
fn groups_are_routed_and_named() {
    assert_eq!(choose_route(0, 1, 1), Route::Composed);
    assert_eq!(choose_route(0, 0, 1), Route::Stiff);
    assert_eq!(choose_route(2, 1, 1), Route::Direct);
    assert_eq!(choose_route(0, 0, 0), Route::Direct);
    let (c, _, _) = chain();
    assert_eq!(sample_names(&c), vec!["V1", "R1", "S1", "R2"]);
    assert_eq!(
        group_failure(3, &c, "", "boom"),
        "staged group 3 failed (4 devices; sample: V1, R1, S1, R2): boom"
    );
    let refused = group_failure(3, &c, "n sag 1 tol 2", "boom");
    assert!(refused.contains("[stiff relaxation refused first: n sag 1 tol 2]: boom"));
    let probe = probe_group(1, &c, 10, false);
    assert_eq!((probe.group, probe.devices, probe.dc_ok), (1, 4, Some(false)));
    assert_eq!(probe_group(1, &c, 3, true).dc_ok, None);
    assert_eq!(describe_refusal("n", "1", "2", ""), "n sag 1 tol 2");
    let line = describe_refusal("m", "3", "4", "why");
    assert_eq!(summarize_stiff_refusal(&vec![line]), "m sag 3 tol 4: why");
}

/// Nodes rest at the operating point; members at their capture's, or at zero.
#[test]
fn rest_values_come_from_operating_points() {
    let (c, _, frag) = chain();
    let layout = Layout::new(&c);
    let x: Vec<Real> = (0..layout.size).map(|i| r(i as f64 + 1.0)).collect();
    assert_eq!(point_voltages(&c, &layout, &x), rs(&[0.0, 1.0, 2.0, 3.0]));
    let ids = select_devices(&c, &frag, &vec![false, true, false], &vec![NodeId(2)], &vec![]);
    let (grid, zeros, held) = (rs(&[0.0]), rs(&[0.0, 0.0, 0.0, 0.0]), vec![]);
    let drive = Drive { grid: &grid, trains: None, rest: &zeros, held: &held };
    let cap = capture_circuit(&c, &ids, &vec![NodeId(2)], &vec![NodeId(2), NodeId(3)], &drive);
    let inner = Layout::new(&cap.circuit);
    let mut solved = vec![r(0.0); inner.size];
    solved[inner.node(NodeId(cap.g2l[&2])).unwrap()] = r(4.5);
    let mut rest = rs(&[0.0, 9.0, 9.0, 9.0]);
    note_rest(&c, &cap, &inner, &Some(solved), &vec![NodeId(2)], &mut rest);
    assert_eq!(rest, rs(&[0.0, 9.0, 4.5, 9.0]));
    note_rest(&c, &cap, &inner, &None, &vec![NodeId(2)], &mut rest);
    assert_eq!(rest, rs(&[0.0, 9.0, 0.0, 9.0]));
}

/// Rails are seeded at the operating point, or from their feeds.
#[test]
fn rails_are_seeded() {
    let rails = vec![tear(2, 1), tear(3, 2)];
    let at_point = seeds_at_point(&rs(&[0.0, 5.0, 4.0, 3.0]), &rails);
    assert_eq!(at_point, vec![None, None, Some(r(4.0)), Some(r(3.0))]);
    let mut c = Circuit::new();
    let a = c.node("a");
    vdc(&mut c, "V1", a, 5.0);
    let fed = seeds_from_feeds(&c, &rs(&[5.0]), &rails, 4);
    assert_eq!(fed, vec![None, None, Some(r(5.0)), Some(r(5.0))]);
}

/// Pins are appended; nothing else moves.
#[test]
fn signals_are_pinned_at_their_trains() {
    let (c, _, _) = chain();
    let trains = vec![vec![], vec![], rs(&[1.0, 2.0]), vec![]];
    let p = pin_signals(&c, &vec![NodeId(2)], &trains, &rs(&[0.0, 0.5]));
    assert_eq!(p.devices.len(), 5);
    assert_eq!(p.devices[3].name(), "R2");
    assert_eq!(p.devices[4].name(), "VSTIFF_m");
    assert!(matches!(
        &p.devices[4],
        Device::Vsource { p: NodeId(2), n: NodeId(0), kind: SourceKind::Pwl(list), .. }
            if *list == vec![(r(0.0), r(1.0)), (r(0.5), r(2.0))]
    ));
    assert_eq!(c.devices.len(), 4);
}

/// Outcomes are recorded under the board's numbers.
#[test]
fn outcomes_are_recorded_on_the_board() {
    let board = to_board(&vec![signal(true)], &vec![GND, NodeId(17)]);
    assert_eq!(board[0].node, NodeId(17));
    assert!(board[0].accepted && board[0].bootstrapped);
    let (records, nodes) = record_outcomes(&board);
    assert_eq!(nodes, vec![NodeId(17)]);
    assert_eq!((records[0].node, records[0].kind), (NodeId(17), TearKind::Stiff));
    assert_eq!(
        retry_failure("died", "2.000e-6", "again"),
        "died; power-ramp retry (window 2.000e-6s) also failed: again"
    );
}
