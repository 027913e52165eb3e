use hauksbee_solve::circuit::{Circuit, Device, DeviceId, NodeId, SourceKind};
use hauksbee_solve::options::{
    DcInit, DeviceEffects, Integration, ParallelPolicy, Partitioning, SolverOptions, StepControl,
};
use hauksbee_solve::orchestrate::tear::RailTear;
use hauksbee_solve::orchestrate::BalanceReport;
use hauksbee_solve::partition::analyze::{Island, Partition};
use hauksbee_solve::partitioned::decide::{
    accepts_partition, choose_partition, count_states, is_reducible, pool_size, torn_rails,
    PAR_MIN_NONLINEAR_ISLANDS,
};
use hauksbee_solve::partitioned::engine::{collect_free_nodes, PartitionedTransient, Reduction};
use hauksbee_solve::partitioned::island::NonlinearIsland;
use hauksbee_solve::partitioned::ownership::verify_single_writer;
use hauksbee_solve::partitioned::reactive::{
    advance_sub_reactive, estimate_state, linear_start, seed_sub_reactive,
};
use hauksbee_solve::partitioned::sources::{apply_sources, gather, order_sources, seed_rails};
use hauksbee_solve::partitioned::sweep::{
    ensure_balanced, fed_rails, first_failure, next_step, rail_channels, relax_step, scatter,
    stalled_text, AfterSweep,
};
use hauksbee_solve::scalar::Scalar;
use hauksbee_solve::sparse::SparseMatrix;
use hauksbee_solve::stamp::context::Linearized;
use hauksbee_solve::stamp::{reserve_pattern, stamp_all, IntegCoeffs, StampCtx};
use hauksbee_solve::system::{Layout, ReactiveState};

#[derive(Clone, Copy, Debug, PartialEq)]
struct Real(f64);

impl Scalar for Real {
    fn exact() -> bool { false }
    fn spec_zero() -> Self { Self::zero() }
    fn spec_int(n: i64) -> Self { Self::from_int(n) }
    fn spec_plus(self, o: Self) -> Self { self.plus(o) }
    fn spec_minus(self, o: Self) -> Self { self.minus(o) }
    fn spec_times(self, o: Self) -> Self { self.times(o) }
    fn spec_over(self, o: Self) -> Self { self.over(o) }
    fn spec_negated(self) -> Self { self.negated() }
    fn spec_abs(self) -> Self { self.abs() }
    fn spec_sqrt(self) -> Self { self.sqrt() }
    fn spec_exp(self) -> Self { self.exp() }
    fn spec_ln(self) -> Self { self.ln() }
    fn spec_ln_1p(self) -> Self { self.ln_1p() }
    fn spec_tanh(self) -> Self { self.tanh() }
    fn spec_pow(self, o: Self) -> Self { self.pow(o) }
    fn spec_less(self, o: Self) -> bool { self.less(o) }
    fn spec_at_most(self, o: Self) -> bool { self.at_most(o) }
    fn spec_is_zero(self) -> bool { self.is_zero() }
    fn spec_finite(self) -> bool { self.finite() }
    fn laws(_: Self, _: Self, _: Self) {}
    fn integer_laws(_: i64) {}
    fn zero() -> Self { Real(0.0) }
    fn from_int(n: i64) -> Self { Real(n as f64) }
    fn plus(self, o: Self) -> Self { Real(self.0 + o.0) }
    fn minus(self, o: Self) -> Self { Real(self.0 - o.0) }
    fn times(self, o: Self) -> Self { Real(self.0 * o.0) }
    fn over(self, o: Self) -> Self { Real(self.0 / o.0) }
    fn negated(self) -> Self { Real(-self.0) }
    fn abs(self) -> Self { Real(self.0.abs()) }
    fn sqrt(self) -> Self { Real(self.0.sqrt()) }
    fn exp(self) -> Self { Real(self.0.exp()) }
    fn ln(self) -> Self { Real(self.0.ln()) }
    fn ln_1p(self) -> Self { Real(self.0.ln_1p()) }
    fn tanh(self) -> Self { Real(self.0.tanh()) }
    fn pow(self, o: Self) -> Self { Real(self.0.powf(o.0)) }
    fn less(self, o: Self) -> bool { self.0 < o.0 }
    fn at_most(self, o: Self) -> bool { self.0 <= o.0 }
    fn is_zero(self) -> bool { self.0 == 0.0 }
    fn finite(self) -> bool { self.0.is_finite() }
}

fn r(v: f64) -> Real {
    Real(v)
}

fn vt() -> f64 {
    8.617333262e-5 * 300.15
}

fn options() -> SolverOptions<Real> {
    SolverOptions {
        integration: Integration::Trapezoidal,
        gmin: r(1e-12),
        reltol: r(1e-3),
        vntol: r(1e-6),
        abstol: r(1e-12),
        chgtol: r(1e-14),
        model_temp: r(27.0),
        vt_nominal: r(vt()),
        vt_model: r(vt()),
        effects: DeviceEffects {
            temperature: false,
            junction_caps: true,
            series_resistance: true,
            early_effect: true,
            spdt_bbm: false,
            spdt_bbm_k: r(1.0),
            switch_ctrl_gm: false,
            comparator_gain: r(100.0),
        },
    }
}

const GND: NodeId = NodeId(0);

fn res(c: &mut Circuit<Real>, name: &str, a: NodeId, b: NodeId, ohms: f64) -> DeviceId {
    c.add(Device::Resistor { name: name.into(), a, b, ohms: r(ohms), tc1: None })
}

fn cap_ic(c: &mut Circuit<Real>, name: &str, a: NodeId, b: NodeId, farads: f64, ic: f64) -> DeviceId {
    c.add(Device::Capacitor { name: name.into(), a, b, farads: r(farads), ic: Some(r(ic)) })
}

fn vdc(c: &mut Circuit<Real>, name: &str, p: NodeId, volts: f64) -> DeviceId {
    c.add(Device::Vsource { name: name.into(), p, n: GND, kind: SourceKind::Dc(r(volts)) })
}

fn comparator(c: &mut Circuit<Real>, name: &str, out: NodeId, inp: NodeId, inn: NodeId) -> DeviceId {
    c.add(Device::Comparator {
        name: name.into(),
        out,
        inp,
        inn,
        out_lo: r(0.0),
        out_hi: r(5.0),
        hysteresis: r(0.0),
    })
}

fn dc_values(c: &Circuit<Real>) -> Vec<Real> {
    c.devices
        .iter()
        .map(|d| match d {
            Device::Vsource { kind: SourceKind::Dc(v), .. } => *v,
            Device::Isource { kind: SourceKind::Dc(v), .. } => *v,
            _ => r(0.0),
        })
        .collect()
}

/// Newton's method on a circuit's system; the solution, if it settles.
fn newton(
    c: &Circuit<Real>,
    layout: &Layout<Real>,
    opts: &SolverOptions<Real>,
    state: &ReactiveState<Real>,
    start: &Vec<Real>,
    coeffs: IntegCoeffs<Real>,
    dc: bool,
) -> Option<Vec<Real>> {
    let sources = dc_values(c);
    let siblings: Vec<Option<DeviceId>> = vec![None; c.devices.len()];
    let behavior: Vec<Option<Linearized<Real>>> = (0..c.devices.len()).map(|_| None).collect();
    let mut x = start.clone();
    for _ in 0..100 {
        let ctx = StampCtx {
            circuit: c,
            layout,
            opts,
            x: &x,
            x_prev: &x,
            coeffs,
            state,
            dc,
            use_ic: false,
            gmin: opts.gmin,
            src_scale: r(1.0),
            branch_reg: r(0.0),
            comparator_freeze: None,
            switch_freeze: None,
            spdt_sibling: &siblings,
            source_dc: &sources,
            source_now: &sources,
            behavior: &behavior,
        };
        let mut m = SparseMatrix::new(layout.size);
        reserve_pattern(c, layout, &mut m);
        let mut next = vec![r(0.0); layout.size];
        stamp_all(&ctx, &mut m, &mut next);
        let mut sym = m.factorize_symbolic();
        sym.set_allow_dynamic(true);
        if !sym.refactor(&m) {
            return None;
        }
        let mut scratch = vec![r(0.0); layout.size];
        sym.solve(&mut next, &mut scratch);
        let settled = x
            .iter()
            .zip(next.iter())
            .all(|(a, b)| (a.0 - b.0).abs() <= 1e-9 + 1e-6 * b.0.abs());
        x = next;
        if settled {
            return Some(x);
        }
    }
    None
}

fn solve_island(
    nl: &mut NonlinearIsland<Real>,
    opts: &SolverOptions<Real>,
    h: f64,
    dc: bool,
) -> Result<(), String> {
    let coeffs = IntegCoeffs::for_step(opts.integration, r(h), nl.first_step);
    match newton(&nl.sub, &nl.layout, opts, &nl.state, &nl.x, coeffs, dc) {
        Some(x) => {
            nl.take_solution(x);
            Ok(())
        }
        None => Err(nl.failure_text(&format!("{h}"))),
    }
}

/// Run an engine without reduced islands and without tears to `tstop`; the last
/// sample.
fn run(
    e: &mut PartitionedTransient<Real>,
    c: &Circuit<Real>,
    opts: &SolverOptions<Real>,
    dt: f64,
    tstop: f64,
) -> Result<Vec<f64>, String> {
    let values = dc_values(c);
    e.estimate_boundary(c, &values);
    for k in 0..e.nonlinear.len() {
        let buf = e.vbuf.clone();
        let nl = &mut e.nonlinear[k];
        nl.refresh_boundary(&buf);
        if solve_island(nl, opts, dt, true).is_err() {
            nl.project(&buf);
        }
        nl.seed(opts);
        nl.write_back(&mut e.vbuf);
    }
    let mut t = r(0.0);
    while let Some(step) = next_step(t, r(dt), r(tstop)) {
        e.apply_sources(c, &values);
        let mut sweeps = 0;
        loop {
            let buf = e.vbuf.clone();
            let mut failures: Vec<Option<String>> = Vec::new();
            for nl in e.nonlinear.iter_mut() {
                nl.refresh_boundary(&buf);
                nl.begin_step(sweeps == 0);
                failures.push(solve_island(nl, opts, step.h.0, false).err());
            }
            if let Some(k) = first_failure(&failures) {
                return Err(failures[k].clone().unwrap());
            }
            let (worst, node) = e.finish_sweep(opts.reltol, opts.vntol);
            sweeps += 1;
            match relax_step(e.coupled, sweeps, worst) {
                AfterSweep::Settled => break,
                AfterSweep::Again => {}
                AfterSweep::Stalled => {
                    return Err(stalled_text(
                        &format!("{:.6e}", step.until.0),
                        &format!("{:.3e}", worst.0),
                        node,
                    ));
                }
            }
        }
        for nl in e.nonlinear.iter_mut() {
            nl.commit(step.h, opts);
        }
        t = step.until;
    }
    Ok(e.sample().iter().map(|v| v.0).collect())
}

#[test]
fn single_writer_accepts_disjoint_ownership() {
    let a = vec![NodeId(1), NodeId(2)];
    let b = vec![NodeId(4)];
    let claimed = verify_single_writer(&vec![a, b], &vec![NodeId(3)], 5).expect("disjoint sets pass");
    assert_eq!(claimed, vec![false, true, true, false, true, false]);
}

#[test]
fn single_writer_rejects_overlapping_ownership() {
    let a = vec![NodeId(1), NodeId(2)];
    let b = vec![NodeId(2), NodeId(3)];
    let err = verify_single_writer(&vec![a, b], &vec![], 4).unwrap_err();
    assert!(
        err.contains("node 2") && err.contains("two islands"),
        "error must name the aliased node: {err}"
    );
    assert_eq!(err, "node 2 owned by two islands (0 and 1); a parallel scatter would alias");
}

#[test]
fn single_writer_rejects_island_owning_a_torn_rail() {
    let a = vec![NodeId(1), NodeId(2)];
    let err = verify_single_writer(&vec![a], &vec![NodeId(2)], 3).unwrap_err();
    assert!(
        err.contains("outer loop") && err.contains("node 2"),
        "error must name the rail conflict: {err}"
    );
    assert_eq!(err, "island 0 claims node 2, which the outer loop writes (torn rail)");
}

/// Two islands that own the same node are refused when the engine is built.
#[test]
fn aliased_partition_has_no_engine() {
    let mut c = Circuit::new();
    let a = c.node("a");
    let b = c.node("b");
    let v1 = vdc(&mut c, "V1", a, 1.0);
    let r1 = res(&mut c, "R1", a, b, 1e3);
    let r2 = res(&mut c, "R2", b, GND, 1e3);
    let part = Partition {
        islands: vec![
            Island { devices: vec![r1], nodes: vec![a, b], linear: false, boundary_in: vec![a] },
            Island { devices: vec![r2], nodes: vec![b], linear: false, boundary_in: vec![] },
        ],
        sources: vec![v1],
        n_nodes: c.max_node() as usize,
    };
    let none: Vec<Option<Reduction>> = vec![None, None];
    assert!(PartitionedTransient::build_from_partition(&c, &part, vec![], &none).is_none());
}

fn comparator_ring() -> (Circuit<Real>, Partition) {
    let mut c = Circuit::new();
    let vref = c.node("ref");
    let x = c.node("x");
    let y = c.node("y");
    let vsrc = vdc(&mut c, "VREF", vref, 0.5);
    let u1 = comparator(&mut c, "U1", y, x, vref);
    let u2 = comparator(&mut c, "U2", x, vref, y);
    let part = Partition {
        islands: vec![
            Island {
                devices: vec![u1],
                nodes: vec![x, y, vref],
                linear: false,
                boundary_in: vec![x, vref],
            },
            Island {
                devices: vec![u2],
                nodes: vec![x, y, vref],
                linear: false,
                boundary_in: vec![y, vref],
            },
        ],
        sources: vec![vsrc],
        n_nodes: c.max_node() as usize,
    };
    (c, part)
}

/// An odd-inversion ring cut at its sense inputs flips sweep after sweep; the step is
/// refused at the cap.
#[test]
fn unconvergent_coupling_fails_the_step_loudly() {
    let (c, part) = comparator_ring();
    let none: Vec<Option<Reduction>> = vec![None, None];
    let mut engine = PartitionedTransient::build_from_partition(&c, &part, vec![], &none)
        .expect("the ring partition has disjoint owners, so the build succeeds");
    assert!(engine.coupled, "the ring must register as inter-island coupled");
    let err = run(&mut engine, &c, &options(), 1e-6, 10e-6)
        .expect_err("an odd-inversion ring can never satisfy the coupling tolerance");
    assert!(err.contains("failed to relax"), "the guard must refuse, not mislabel: {err}");
    assert!(err.contains("within 16 sweeps"), "{err}");
}

#[test]
fn auto_policy_declines_small_boards_and_engages_large_ones() {
    let c = fan(6);
    let fixed = StepControl::Fixed { dt: r(1e-6) };
    let split = choose_partition(&c, Partitioning::Auto, fixed, Partition::analyze(&c), vec![])
        .expect("fan partitions");
    let reductions: Vec<Option<Reduction>> = (0..6)
        .map(|k| {
            let locals = split.partition.islands[k]
                .nodes
                .iter()
                .map(|n| if n.0 == 1 { None } else { Some(0) })
                .collect();
            Some(Reduction { inputs: vec![NodeId(1)], locals, states: 1 })
        })
        .collect();
    let engine =
        PartitionedTransient::build_from_partition(&c, &split.partition, split.tears, &reductions)
            .expect("fan partitions");
    assert_eq!(engine.linear.len(), 6);
    assert!(
        pool_size(ParallelPolicy::Auto, engine.nonlinear.len(), 8).is_none(),
        "Auto must decline a pool for a linear fan with no nonlinear islands"
    );
    assert!(
        pool_size(ParallelPolicy::Threads(2), engine.nonlinear.len(), 8).is_some(),
        "Threads(n) must force a pool even below the Auto threshold"
    );
    assert_eq!(pool_size(ParallelPolicy::Threads(2), 0, 8), Some(2));
    assert_eq!(pool_size(ParallelPolicy::Threads(0), 0, 8), Some(1));
    assert!(pool_size(ParallelPolicy::Auto, PAR_MIN_NONLINEAR_ISLANDS - 1, 8).is_none());
    assert!(pool_size(ParallelPolicy::Auto, PAR_MIN_NONLINEAR_ISLANDS, 8).is_some());
    assert!(pool_size(ParallelPolicy::Off, 1_000, 8).is_none());
    assert_eq!(pool_size(ParallelPolicy::Auto, 240, 1), None);
    assert_eq!(pool_size(ParallelPolicy::Auto, 240, 4), Some(2));
    assert_eq!(pool_size(ParallelPolicy::Auto, 240, 12), Some(3));
    assert_eq!(pool_size(ParallelPolicy::Auto, 240, 64), Some(4));
}

#[test]
fn coupled_feedforward_partition_converges_and_matches_monolithic() {
    let mut c = Circuit::new();
    let vin = c.node("vin");
    let m = c.node("m");
    let vref = c.node("ref");
    let o = c.node("o");
    let v1 = vdc(&mut c, "V1", vin, 1.0);
    let vr = vdc(&mut c, "VREF", vref, 0.5);
    let r1 = res(&mut c, "R1", vin, m, 1e3);
    let c1 = cap_ic(&mut c, "C1", m, GND, 1e-9, 0.0);
    let u = comparator(&mut c, "CMP", o, m, vref);
    let part = Partition {
        islands: vec![
            Island {
                devices: vec![r1, c1],
                nodes: vec![vin, m],
                linear: true,
                boundary_in: vec![vin],
            },
            Island {
                devices: vec![u],
                nodes: vec![o, m, vref],
                linear: false,
                boundary_in: vec![m, vref],
            },
        ],
        sources: vec![v1, vr],
        n_nodes: c.max_node() as usize,
    };
    let dt = 5e-8;
    let tstop = 10e-6;
    let opts = options();
    let none: Vec<Option<Reduction>> = vec![None, None];
    let mut engine = PartitionedTransient::build_from_partition(&c, &part, vec![], &none)
        .expect("well-formed feedforward partition builds");
    assert!(engine.coupled, "the sense boundary must register as coupling");
    let last = run(&mut engine, &c, &opts, dt, tstop).expect("a feedforward coupling relaxes");
    let layout = Layout::new(&c);
    let mut state = ReactiveState::new(c.devices.len());
    let mut x = vec![r(0.0); layout.size];
    let mut first = true;
    let mut t = r(0.0);
    while let Some(step) = next_step(t, r(dt), r(tstop)) {
        let coeffs = IntegCoeffs::for_step(opts.integration, step.h, first);
        x = newton(&c, &layout, &opts, &state, &x, coeffs, false).expect("undivided solve");
        advance_sub_reactive(&mut state, &c, &layout, &x, step.h, &opts, first);
        first = false;
        t = step.until;
    }
    let m_mono = x[layout.node(m).unwrap()].0;
    let o_mono = x[layout.node(o).unwrap()].0;
    let m_part = last[m.0 as usize - 1];
    let o_part = last[o.0 as usize - 1];
    assert!((m_mono - m_part).abs() <= 1e-6, "mono {m_mono} vs split {m_part}");
    assert!((o_mono - o_part).abs() <= 1e-6, "mono {o_mono} vs split {o_part}");
    assert!((m_part - 1.0).abs() < 1e-3 && o_part > 4.0, "m {m_part} o {o_part}");
}

/// Sources whose reference is not resolved yet wait for the one that resolves it, and
/// stacked supplies add up, whichever terminal the stack hangs from.
#[test]
fn stacked_sources_are_applied_in_turn() {
    let mut c = Circuit::new();
    let a = c.node("a");
    let b = c.node("b");
    let d = c.node("d");
    let top = c.add(Device::Vsource { name: "VT".into(), p: b, n: a, kind: SourceKind::Dc(r(2.0)) });
    let base = vdc(&mut c, "VB", a, 5.0);
    let down = c.add(Device::Vsource { name: "VD".into(), p: a, n: d, kind: SourceKind::Dc(r(3.0)) });
    let neg = c.node("neg");
    let minus = c.add(Device::Vsource {
        name: "VN".into(),
        p: GND,
        n: neg,
        kind: SourceKind::Dc(r(12.0)),
    });
    let order = order_sources(&c, &vec![top, base, down, minus]);
    assert_eq!(order, vec![base, down, minus, top]);
    let mut buf = vec![r(0.0); 5];
    apply_sources(&c, &order, &dc_values(&c), &mut buf);
    assert_eq!(buf[a.0 as usize], r(5.0));
    assert_eq!(buf[b.0 as usize], r(7.0));
    assert_eq!(buf[d.0 as usize], r(2.0));
    assert_eq!(buf[neg.0 as usize], r(-12.0));
    assert_eq!(gather(&buf), vec![r(5.0), r(7.0), r(2.0), r(-12.0)]);
}

/// A rail fed by another rail starts at the source's voltage as well.
#[test]
fn cascaded_rails_start_at_their_feed() {
    let tear = |rail: u32, feed: u32| RailTear {
        rail: NodeId(rail),
        feed: NodeId(feed),
        shunt: DeviceId(0),
        r_shunt: r(100.0),
    };
    let tears = vec![tear(3, 2), tear(2, 1)];
    let mut buf = vec![r(0.0), r(5.0), r(0.0), r(0.0)];
    seed_rails(&tears, &mut buf);
    assert_eq!(buf, vec![r(0.0), r(5.0), r(5.0), r(5.0)]);
    let channels = rail_channels(&tears);
    assert_eq!(channels[0].rail, NodeId(3));
    assert_eq!(channels[1].shunt_ohms, r(100.0));
    assert_eq!(channels[0].children, vec![]);
    assert_eq!(channels[1].children, vec![(0, r(100.0))]);
    assert_eq!(fed_rails(&tears, NodeId(2)), vec![(0, r(100.0))]);
    assert_eq!(fed_rails(&tears, NodeId(3)), vec![]);
}

/// The order of delivery cannot show in a sweep; the worst change is weighted.
#[test]
fn sweeps_do_not_depend_on_the_order_of_delivery() {
    let read = vec![r(0.0), r(1.0), r(2.0), r(3.0)];
    let a = vec![(NodeId(1), r(1.5)), (NodeId(3), r(9.0))];
    let b = vec![(NodeId(3), r(9.0)), (NodeId(1), r(1.5))];
    let first = scatter(&read, &a, r(0.0), r(1.0));
    let second = scatter(&read, &b, r(0.0), r(1.0));
    assert_eq!(first.buf, second.buf);
    assert_eq!(first.buf, vec![r(0.0), r(1.5), r(2.0), r(9.0)]);
    assert_eq!((first.worst, first.node), (r(6.0), NodeId(3)));
    let weighted = scatter(&read, &vec![(NodeId(2), r(4.0))], r(0.5), r(0.0));
    assert_eq!(weighted.worst, r(1.0));
}

/// A step settles, sweeps again, or stalls at the cap.
#[test]
fn relaxation_ends_at_the_cap() {
    assert_eq!(relax_step(false, 1, r(100.0)), AfterSweep::Settled);
    assert_eq!(relax_step(true, 1, r(0.0)), AfterSweep::Again);
    assert_eq!(relax_step(true, 2, r(1.0)), AfterSweep::Settled);
    assert_eq!(relax_step(true, 15, r(1.5)), AfterSweep::Again);
    assert_eq!(relax_step(true, 16, r(1.5)), AfterSweep::Stalled);
    assert_eq!(relax_step(true, 16, r(f64::NAN)), AfterSweep::Stalled);
    let text = stalled_text("1.000000e-6", "5.000e0", NodeId(7));
    assert!(text.starts_with("inter-island coupling failed to relax within 16 sweeps at t=1.000000e-6"));
    assert!(text.contains("still moving at node 7"));
}

/// Whichever island ran first, the one with the lowest number reports.
#[test]
fn the_first_island_reports_its_failure() {
    assert_eq!(first_failure(&vec![None, None]), None);
    assert_eq!(first_failure(&vec![None, Some("b".into()), Some("c".into())]), Some(1));
}

/// The last step is cut short at the stop time.
#[test]
fn the_last_step_is_cut_short() {
    let s = next_step(r(0.0), r(0.4), r(1.0)).unwrap();
    assert_eq!((s.h, s.until), (r(0.4), r(0.4)));
    let s = next_step(r(0.8), r(0.4), r(1.0)).unwrap();
    assert!((s.h.0 - 0.2).abs() < 1e-12);
    assert!(next_step(r(1.0), r(0.4), r(1.0)).is_none());
}

/// A balance that ran out of passes is refused.
#[test]
fn unbalanced_rails_are_refused() {
    let good = BalanceReport { outer_passes: 2, final_residuals: vec![r(0.0)], converged: true };
    assert!(ensure_balanced(&good).is_ok());
    let bad = BalanceReport { outer_passes: 60, final_residuals: vec![r(1.0)], converged: false };
    assert_eq!(ensure_balanced(&bad).unwrap_err(), "rail balance did not converge in 60 passes");
}

fn fan(legs: usize) -> Circuit<Real> {
    let mut c = Circuit::new();
    let rail = c.node("rail");
    vdc(&mut c, "V1", rail, 1.0);
    for k in 0..legs {
        let mid = c.node(&format!("leg{k}"));
        res(&mut c, &format!("R{k}"), rail, mid, 1e3);
        cap_ic(&mut c, &format!("C{k}"), mid, GND, 1e-9, 0.0);
    }
    c
}

/// When a circuit is split, and when it runs undivided.
#[test]
fn splits_are_taken_where_they_pay() {
    let c = fan(6);
    let fixed = StepControl::Fixed { dt: r(1e-6) };
    let adaptive = StepControl::Adaptive { dt_initial: r(1e-6), dt_min: r(1e-9), dt_max: r(1e-3) };
    let part = || Partition::analyze(&c);
    let taken = choose_partition(&c, Partitioning::Auto, fixed, part(), vec![]);
    assert_eq!(taken.unwrap().partition.islands.len(), 6);
    assert!(choose_partition(&c, Partitioning::Off, fixed, part(), vec![]).is_none());
    assert!(choose_partition(&c, Partitioning::Auto, adaptive, part(), vec![]).is_none());
    assert_eq!(count_states(&c, &part().islands[0]), 1);
    let mut big = Circuit::new();
    let rail = big.node("rail");
    vdc(&mut big, "V1", rail, 1.0);
    let mut prev = rail;
    for k in 0..60 {
        let next = big.node(&format!("n{k}"));
        res(&mut big, &format!("R{k}"), prev, next, 1e3);
        cap_ic(&mut big, &format!("C{k}"), next, GND, 1e-9, 0.0);
        prev = next;
    }
    let ladder = Partition::analyze(&big);
    assert!(choose_partition(&big, Partitioning::Auto, fixed, ladder, vec![]).is_none());
    assert!(accepts_partition(fixed, DcInit::Solve));
    assert!(!accepts_partition(fixed, DcInit::FromZero));
    assert!(!accepts_partition(adaptive, DcInit::Solve));
}

/// Reduced islands keep their states; one that loads a torn rail is solved as a block.
#[test]
fn islands_on_a_torn_rail_are_blocks() {
    let c = fan(2);
    let part = Partition::analyze(&c);
    let reduction = |node: u32| {
        Some(Reduction {
            inputs: vec![NodeId(1)],
            locals: vec![None, if node == 0 { None } else { Some(0) }],
            states: 1,
        })
    };
    let reds = vec![reduction(2), reduction(3)];
    assert!(is_reducible(&part.islands[0], &vec![]));
    assert!(!is_reducible(&part.islands[0], &vec![NodeId(1)]));
    let e = PartitionedTransient::build_from_partition(&c, &part, vec![], &reds).unwrap();
    assert_eq!(e.linear.len(), 2);
    assert_eq!(e.linear[1].free, vec![NodeId(3)]);
    assert_eq!(e.linear[1].state, vec![r(0.0)]);
    assert!(!e.coupled);
    let tear = RailTear { rail: NodeId(1), feed: GND, shunt: DeviceId(0), r_shunt: r(10.0) };
    let torn = PartitionedTransient::build_from_partition(&c, &part, vec![tear], &reds).unwrap();
    assert_eq!(torn.linear.len(), 0);
    assert_eq!(torn.nonlinear.len(), 2);
    assert_eq!(torn.loads_on(NodeId(1)), 2);
    assert_eq!(torn.drawn_from(NodeId(1)), r(0.0));
    assert_eq!(torn_rails(&torn.tears), vec![NodeId(1)]);
}

/// Free nodes come by place, those of equal place in turn.
#[test]
fn free_nodes_come_by_place() {
    let nodes = vec![NodeId(4), NodeId(5), NodeId(6), NodeId(7)];
    let places = vec![Some(2), None, Some(0), Some(2)];
    assert_eq!(collect_free_nodes(&nodes, &places), vec![NodeId(6), NodeId(4), NodeId(7)]);
}

/// An island lowered by hand: local nodes, retargeted controls, pinned boundary.
#[test]
fn lowered_islands_pin_their_boundary() {
    let mut c = Circuit::new();
    let a = c.node("a");
    let b = c.node("b");
    let out = c.node("out");
    let sense = c.add(Device::Vsource { name: "VS".into(), p: b, n: GND, kind: SourceKind::Dc(r(0.0)) });
    let r1 = res(&mut c, "R1", a, b, 1e3);
    let f1 = c.add(Device::Cccs { name: "F1".into(), p: out, n: GND, ctrl_src: sense, gain: r(2.0) });
    let isl = Island {
        devices: vec![r1, sense, f1],
        nodes: vec![a, b, out],
        linear: false,
        boundary_in: vec![a],
    };
    let mut nl = NonlinearIsland::build(&c, &isl).unwrap();
    assert_eq!(nl.l2g, vec![GND, a, b, out]);
    assert_eq!(nl.sub.node_name(NodeId(2)), "n2");
    assert_eq!(nl.boundary, vec![(a, DeviceId(3))]);
    assert_eq!(nl.sub.devices[3].name(), "VB1");
    assert_eq!(nl.sub.devices[2].controlling_sources(), vec![DeviceId(1)]);
    assert_eq!(nl.owned, vec![(b, 1), (out, 2)]);
    assert!(!nl.line_search);
    assert!(nl.touches_rail(a) && !nl.touches_rail(b));
    nl.refresh_boundary(&vec![r(0.0), r(4.0), r(0.0), r(0.0)]);
    assert!(matches!(&nl.sub.devices[3], Device::Vsource { kind: SourceKind::Dc(v), .. } if *v == r(4.0)));
    solve_island(&mut nl, &options(), 1e-6, true).unwrap();
    let drawn = nl.rail_current(a);
    assert!((drawn.0 - 4e-3).abs() < 1e-9, "drawn {}", drawn.0);
    assert_eq!(nl.rail_current(b), r(0.0));
    nl.project(&vec![r(0.0), r(1.0), r(2.0), r(3.0)]);
    assert_eq!(nl.x[..3], [r(1.0), r(2.0), r(3.0)]);
    let mut buf = vec![r(0.0); 4];
    nl.write_back(&mut buf);
    assert_eq!(buf, vec![r(0.0), r(0.0), r(2.0), r(3.0)]);
    assert_eq!(
        nl.failure_text("0.5"),
        "nonlinear island Newton failed at h=0.5 (island of 4: R1, VS, F1, VB1)"
    );
    let open = Island { devices: vec![f1], nodes: vec![out], linear: false, boundary_in: vec![] };
    assert!(NonlinearIsland::build(&c, &open).is_none(), "its control is elsewhere");
}

/// History: at rest after seeding, then the trapezoidal rule from the second step on.
#[test]
fn reactive_history_rolls_by_the_rule() {
    let mut c = Circuit::new();
    let a = c.node("a");
    cap_ic(&mut c, "C1", a, GND, 1e-9, 2.0);
    let layout = Layout::new(&c);
    let opts = options();
    let mut state: ReactiveState<Real> = ReactiveState::new(1);
    seed_sub_reactive(&mut state, &c, &layout, &vec![r(9.0)], &opts);
    assert_eq!((state.x1[0], state.x2[0], state.dx1[0]), (r(2.0), r(2.0), r(0.0)));
    advance_sub_reactive(&mut state, &c, &layout, &vec![r(3.0)], r(0.5), &opts, true);
    assert_eq!((state.x1[0], state.x2[0], state.dx1[0]), (r(3.0), r(2.0), r(2.0)));
    advance_sub_reactive(&mut state, &c, &layout, &vec![r(4.0)], r(0.5), &opts, false);
    assert_eq!((state.x1[0], state.x2[0], state.dx1[0]), (r(4.0), r(3.0), r(2.0)));
    assert_eq!(estimate_state(&c.devices[0], r(7.0), r(1.0)), r(2.0));
    let free = Device::Capacitor { name: "C2".into(), a, b: GND, farads: r(1.0), ic: None };
    assert_eq!(estimate_state(&free, r(7.0), r(1.0)), r(6.0));
    let coil = Device::Inductor { name: "L1".into(), a, b: GND, henries: r(1.0), ic: None };
    assert_eq!(estimate_state(&coil, r(7.0), r(1.0)), r(0.0));
}

/// A circuit at rest stays there: a step to where it was leaves its history.
#[test]
fn rest_is_kept() {
    let mut c = Circuit::new();
    let a = c.node("a");
    c.add(Device::Capacitor { name: "C1".into(), a, b: GND, farads: r(1e-9), ic: None });
    let layout = Layout::new(&c);
    let opts = options();
    let mut state: ReactiveState<Real> = ReactiveState::new(1);
    let x = vec![r(1.5)];
    seed_sub_reactive(&mut state, &c, &layout, &x, &opts);
    for first in [true, false] {
        advance_sub_reactive(&mut state, &c, &layout, &x, r(0.25), &opts, first);
        assert_eq!((state.x1[0], state.x2[0], state.dx1[0]), (r(1.5), r(1.5), r(0.0)));
    }
}

/// A reduced island starts where its initial conditions put it, else at the operating
/// point, else at the estimate.
#[test]
fn reduced_islands_start_at_the_point_or_the_estimate() {
    let mut c = Circuit::new();
    let a = c.node("a");
    let b = c.node("b");
    let free = c.add(Device::Capacitor { name: "C1".into(), a, b, farads: r(1e-9), ic: None });
    let held = cap_ic(&mut c, "C2", a, b, 1e-9, 0.25);
    let coil = c.add(Device::Inductor { name: "L1".into(), a, b, henries: r(1e-3), ic: None });
    let layout = Layout::new(&c);
    let mut x = vec![r(0.0); layout.size];
    x[0] = r(3.0);
    x[1] = r(1.0);
    x[layout.branch(coil).unwrap()] = r(0.5);
    let buf = vec![r(0.0), r(7.0), r(3.0)];
    assert_eq!(linear_start(&c, &layout, Some(&x), &buf, free), r(2.0));
    assert_eq!(linear_start(&c, &layout, Some(&x), &buf, held), r(0.25));
    assert_eq!(linear_start(&c, &layout, Some(&x), &buf, coil), r(0.5));
    assert_eq!(linear_start(&c, &layout, None, &buf, free), r(4.0));
    assert_eq!(linear_start(&c, &layout, None, &buf, held), r(0.25));
    assert_eq!(linear_start(&c, &layout, None, &buf, coil), r(0.0));
}
