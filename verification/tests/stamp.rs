use hauksbee_solve::circuit::{
    BDep, BjtModel, Circuit, Device, DeviceId, DiodeModel, MosfetModel, NodeId, Polarity, SourceKind,
};
use hauksbee_solve::plan::{stamp_all_planned, StampPlan};
use hauksbee_solve::options::{DeviceEffects, Integration, SolverOptions};
use hauksbee_solve::scalar::Scalar;
use hauksbee_solve::sparse::SparseMatrix;
use hauksbee_solve::stamp::behavioral::{behavioral_eval_partials, ExprFault, FaultNote};
use hauksbee_solve::stamp::bjt::{bjt_charge_bc, bjt_charge_be};
use hauksbee_solve::stamp::context::Linearized;
use hauksbee_solve::stamp::junction::{
    depletion_charge, diode_charge, diode_eval, note_circuit, note_dishonored, pnjlim, vcrit,
    EffectLog,
};
use hauksbee_solve::stamp::mosfet::mos_channel;
use hauksbee_solve::stamp::{
    log_once, reserve_pattern, stamp_all, stamp_residual, IntegCoeffs, StampCtx,
};
use hauksbee_solve::system::{Layout, ReactiveState};

#[derive(Clone, Copy, Debug, PartialEq)]
struct Real(f64);

impl Scalar for Real {
    fn exact() -> bool { false }
    fn spec_zero() -> Self { Self::zero() }
    fn spec_int(n: i64) -> Self { Self::from_int(n) }
    fn spec_plus(self, o: Self) -> Self { self.plus(o) }
    fn spec_minus(self, o: Self) -> Self { self.minus(o) }
    fn spec_times(self, o: Self) -> Self { self.times(o) }
    fn spec_over(self, o: Self) -> Self { self.over(o) }
    fn spec_negated(self) -> Self { self.negated() }
    fn spec_abs(self) -> Self { self.abs() }
    fn spec_sqrt(self) -> Self { self.sqrt() }
    fn spec_exp(self) -> Self { self.exp() }
    fn spec_ln(self) -> Self { self.ln() }
    fn spec_ln_1p(self) -> Self { self.ln_1p() }
    fn spec_tanh(self) -> Self { self.tanh() }
    fn spec_pow(self, o: Self) -> Self { self.pow(o) }
    fn spec_less(self, o: Self) -> bool { self.less(o) }
    fn spec_at_most(self, o: Self) -> bool { self.at_most(o) }
    fn spec_is_zero(self) -> bool { self.is_zero() }
    fn spec_finite(self) -> bool { self.finite() }
    fn laws(_: Self, _: Self, _: Self) {}
    fn integer_laws(_: i64) {}
    fn zero() -> Self { Real(0.0) }
    fn from_int(n: i64) -> Self { Real(n as f64) }
    fn plus(self, o: Self) -> Self { Real(self.0 + o.0) }
    fn minus(self, o: Self) -> Self { Real(self.0 - o.0) }
    fn times(self, o: Self) -> Self { Real(self.0 * o.0) }
    fn over(self, o: Self) -> Self { Real(self.0 / o.0) }
    fn negated(self) -> Self { Real(-self.0) }
    fn abs(self) -> Self { Real(self.0.abs()) }
    fn sqrt(self) -> Self { Real(self.0.sqrt()) }
    fn exp(self) -> Self { Real(self.0.exp()) }
    fn ln(self) -> Self { Real(self.0.ln()) }
    fn ln_1p(self) -> Self { Real(self.0.ln_1p()) }
    fn tanh(self) -> Self { Real(self.0.tanh()) }
    fn pow(self, o: Self) -> Self { Real(self.0.powf(o.0)) }
    fn less(self, o: Self) -> bool { self.0 < o.0 }
    fn at_most(self, o: Self) -> bool { self.0 <= o.0 }
    fn is_zero(self) -> bool { self.0 == 0.0 }
    fn finite(self) -> bool { self.0.is_finite() }
}

fn r(v: f64) -> Real {
    Real(v)
}

fn vt() -> f64 {
    8.617333262e-5 * 300.15
}

fn diode_model() -> DiodeModel<Real> {
    DiodeModel {
        is: r(1e-14),
        is_hot: r(1e-14),
        n: r(1.0),
        rs: r(0.0),
        cjo: r(0.0),
        vj: r(1.0),
        m: r(0.5),
        tt: r(0.0),
        bv: None,
    }
}

fn charged_diode() -> DiodeModel<Real> {
    DiodeModel { cjo: r(4e-12), vj: r(0.7), m: r(0.45), tt: r(20e-9), ..diode_model() }
}

fn bjt_model() -> BjtModel<Real> {
    BjtModel {
        polarity: Polarity::N,
        is: r(1e-14),
        is_hot: r(1e-14),
        bf: r(100.0),
        br: r(1.0),
        nf: r(1.0),
        nr: r(1.0),
        vaf: None,
        var: None,
        rb: r(0.0),
        re: r(0.0),
        rc: r(0.0),
        cje: r(0.0),
        cjc: r(0.0),
        tf: r(0.0),
        tr: r(0.0),
    }
}

fn charged_bjt() -> BjtModel<Real> {
    BjtModel { cje: r(20e-12), cjc: r(8e-12), tf: r(400e-12), tr: r(50e-9), ..bjt_model() }
}

fn mos_model() -> MosfetModel<Real> {
    MosfetModel {
        polarity: Polarity::N,
        vto: r(0.7),
        beta: r(2e-5),
        gamma: r(0.0),
        phi: r(0.6),
        lambda: r(0.0),
        n_sub: r(1.0),
        rd: r(0.0),
        rs: r(0.0),
        cgs_ov: r(0.0),
        cgd_ov: r(0.0),
        c_ox: r(0.0),
        cbd: r(0.0),
        cbs: r(0.0),
        pb: r(0.8),
        mj: r(0.5),
        body_is: r(1e-14),
        gate_charge: false,
        body_diode: false,
    }
}

fn options() -> SolverOptions<Real> {
    SolverOptions {
        integration: Integration::Trapezoidal,
        gmin: r(1e-12),
        reltol: r(1e-3),
        vntol: r(1e-6),
        abstol: r(1e-12),
        chgtol: r(1e-14),
        model_temp: r(27.0),
        vt_nominal: r(vt()),
        vt_model: r(vt()),
        effects: DeviceEffects {
            temperature: false,
            junction_caps: true,
            series_resistance: true,
            early_effect: true,
            spdt_bbm: false,
            spdt_bbm_k: r(1.0),
            switch_ctrl_gm: false,
            comparator_gain: r(100.0),
        },
    }
}

/// A circuit with everything a stamp of it reads.
struct Bench {
    circuit: Circuit<Real>,
    layout: Layout<Real>,
    opts: SolverOptions<Real>,
    x: Vec<Real>,
    x_prev: Vec<Real>,
    coeffs: IntegCoeffs<Real>,
    state: ReactiveState<Real>,
    dc: bool,
    gmin: f64,
    branch_reg: f64,
    siblings: Vec<Option<DeviceId>>,
    sources: Vec<Real>,
    behavior: Vec<Option<Linearized<Real>>>,
}

impl Bench {
    fn new(circuit: Circuit<Real>, opts: SolverOptions<Real>, x: f64) -> Bench {
        let layout = Layout::new(&circuit);
        let n = circuit.devices.len();
        let mut sources = vec![r(0.0); n];
        for (d, dev) in circuit.devices.iter().enumerate() {
            if let Device::Vsource { kind: SourceKind::Dc(v), .. } = dev {
                sources[d] = *v;
            }
        }
        Bench {
            x: vec![r(x); layout.size],
            x_prev: vec![r(x); layout.size],
            coeffs: IntegCoeffs::for_step(Integration::Trapezoidal, r(1e-9), false),
            state: ReactiveState::new(n),
            dc: false,
            gmin: 0.0,
            branch_reg: 0.0,
            siblings: vec![None; n],
            sources,
            behavior: (0..n).map(|_| None).collect(),
            circuit,
            layout,
            opts,
        }
    }

    fn ctx(&self) -> StampCtx<'_, Real> {
        StampCtx {
            circuit: &self.circuit,
            layout: &self.layout,
            opts: &self.opts,
            x: &self.x,
            x_prev: &self.x_prev,
            coeffs: self.coeffs,
            state: &self.state,
            dc: self.dc,
            use_ic: false,
            gmin: r(self.gmin),
            src_scale: r(1.0),
            branch_reg: r(self.branch_reg),
            comparator_freeze: None,
            switch_freeze: None,
            spdt_sibling: &self.siblings,
            source_dc: &self.sources,
            source_now: &self.sources,
            behavior: &self.behavior,
        }
    }

    fn assemble(&self) -> (SparseMatrix<Real>, Vec<Real>) {
        let mut m = SparseMatrix::new(self.layout.size);
        reserve_pattern(&self.circuit, &self.layout, &mut m);
        let mut rhs = vec![r(0.0); self.layout.size];
        stamp_all(&self.ctx(), &mut m, &mut rhs);
        (m, rhs)
    }

    fn residual(&self) -> Vec<Real> {
        let mut f = vec![r(0.0); self.layout.size];
        stamp_residual(&self.ctx(), &mut f);
        f
    }
}

fn entry(m: &SparseMatrix<Real>, row: usize, col: usize) -> f64 {
    m.row(row).iter().find(|e| e.0 == col).map(|e| e.1.0).unwrap()
}

fn junction(m: &DiodeModel<Real>, vd: f64) -> (f64, f64) {
    let (id, gd) = diode_eval(m, r(vd), &options());
    let (q, c) = diode_charge(m, r(vd), id, gd);
    (q.0, c.0)
}

/// The capacitance continues across the knee with matching value and slope.
#[test]
fn junction_cap_knee_is_c1_continuous() {
    let m = charged_diode();
    let knee = 0.5 * 0.7;
    let eps = 1e-9;
    let (q_lo, c_lo) = junction(&m, knee - eps);
    let (q_hi, c_hi) = junction(&m, knee + eps);
    assert!((q_hi - q_lo).abs() < 1e-6 * q_lo.abs().max(1e-15), "Q jump at knee");
    assert!((c_hi - c_lo).abs() < 1e-6 * c_lo, "C jump at knee");
    let d = 1e-6;
    let slope_lo = (junction(&m, knee - eps).1 - junction(&m, knee - eps - d).1) / d;
    let slope_hi = (junction(&m, knee + eps + d).1 - junction(&m, knee + eps).1) / d;
    assert!(
        (slope_hi - slope_lo).abs() < 1e-3 * slope_lo.abs(),
        "dC/dv kink at knee: {slope_lo:e} vs {slope_hi:e}"
    );
}

#[test]
fn junction_charge_is_integral_of_cap() {
    let m = charged_diode();
    for &vd in &[-5.0, -1.0, -0.2, 0.0, 0.2, 0.34, 0.4, 0.6, 0.9] {
        let (_q, c) = junction(&m, vd);
        let d = 1e-7;
        let dq = (junction(&m, vd + d).0 - junction(&m, vd - d).0) / (2.0 * d);
        assert!(
            (dq - c).abs() < 1e-4 * c.abs().max(1e-18),
            "dQ/dv != C at vd={vd}: fd={dq:e} c={c:e}"
        );
    }
}

#[test]
fn breakdown_current_is_reverse_continuous_and_bounded() {
    let m = DiodeModel { bv: Some(r(6.2)), ..diode_model() };
    let is = m.is.0;
    let nvt = vt();
    let o = options();
    let (i_at, _) = diode_eval(&m, r(-6.2), &o);
    assert!((i_at.0 + is).abs() < 1e-3 * is, "not continuous at -bv: {:e}", i_at.0);
    let (i_past, g_past) = diode_eval(&m, r(-6.2 - 5.0 * nvt), &o);
    assert!(i_past.0 < 0.0, "breakdown current must be REVERSE, got {:e}", i_past.0);
    assert!(
        (i_past.0 + is * 5.0f64.exp()).abs() < 1e-6 * is * 5.0f64.exp(),
        "wrong exponential shape: {:e}",
        i_past.0
    );
    assert!(g_past.0 > 0.0);
    let (i_deep, g_deep) = diode_eval(&m, r(-1e6), &o);
    assert!(i_deep.0.is_finite() && g_deep.0.is_finite());
    assert!((i_deep.0 + is * 40.0f64.exp()).abs() < 1e-6 * is * 40.0f64.exp());
    let m_inf = diode_model();
    let (i_rev, g_rev) = diode_eval(&m_inf, r(-100.0), &o);
    assert_eq!(i_rev.0, -m_inf.is.0);
    assert_eq!(g_rev.0, m_inf.is.0 / nvt * 1e-3);
}

fn stamped_diode(model: DiodeModel<Real>, junction_caps: bool) -> (f64, f64) {
    let mut c = Circuit::new();
    let a = c.node("a");
    c.add(Device::Diode { name: "D1".into(), a, k: NodeId(0), model });
    let mut opts = options();
    opts.effects.junction_caps = junction_caps;
    let mut b = Bench::new(c, opts, 0.62);
    b.state.x1[0] = r(1e-12);
    let (m, rhs) = b.assemble();
    (entry(&m, 0, 0), rhs[0].0)
}

#[test]
fn junction_caps_toggle_changes_diode_stamp() {
    let (g_on, r_on) = stamped_diode(charged_diode(), true);
    let (g_off, r_off) = stamped_diode(charged_diode(), false);
    assert!(g_on > g_off, "junction_caps on must add companion conductance");
    assert!(r_on != r_off, "junction_caps on must add history RHS terms");
    let (g_on0, r_on0) = stamped_diode(diode_model(), true);
    let (g_off0, r_off0) = stamped_diode(diode_model(), false);
    assert_eq!(g_on0.to_bits(), g_off0.to_bits());
    assert_eq!(r_on0.to_bits(), r_off0.to_bits());
}

#[test]
fn dishonored_effects_log_once() {
    let diode = |rs: f64| {
        let mut c = Circuit::new();
        let a = c.node("a");
        let model = DiodeModel { rs: r(rs), ..diode_model() };
        c.add(Device::Diode { name: "D1".into(), a, k: NodeId(0), model });
        c
    };
    let mut log = EffectLog { diode_series_r: false };
    let b = Bench::new(diode(0.5), options(), 0.6);
    let (m, rhs) = b.assemble();
    assert!(note_circuit(&b.circuit, &b.opts.effects, &mut log));
    assert!(log.diode_series_r);
    assert!(!note_circuit(&b.circuit, &b.opts.effects, &mut log));
    assert!(log.diode_series_r);

    let plain = Bench::new(diode(0.0), options(), 0.6);
    let (m0, rhs0) = plain.assemble();
    assert_eq!(entry(&m, 0, 0), entry(&m0, 0, 0));
    assert_eq!(rhs[0], rhs0[0]);
    let mut log = EffectLog { diode_series_r: false };
    assert!(!note_circuit(&plain.circuit, &plain.opts.effects, &mut log));
    let mut off = options();
    off.effects.series_resistance = false;
    assert!(!note_circuit(&b.circuit, &off.effects, &mut log));
    assert!(!log.diode_series_r);

    let with_rs = DiodeModel { rs: r(0.5), ..diode_model() };
    assert!(note_dishonored(&with_rs, &options().effects, &mut log));
    let mut flag = false;
    assert!(log_once(&mut flag));
    assert!(!log_once(&mut flag));
}

fn bjt_bench(model: BjtModel<Real>, opts: SolverOptions<Real>) -> Bench {
    let mut cir = Circuit::new();
    let nb = cir.node("b");
    let nc = cir.node("c");
    cir.add(Device::Bjt { name: "Q1".into(), c: nc, b: nb, e: NodeId(0), model });
    let mut b = Bench::new(cir, opts, 0.65);
    let i = b.layout.node(nc).unwrap();
    b.x[i] = r(3.0);
    b.x_prev[i] = r(3.0);
    b.state.x1[0] = r(1e-12);
    b.state.xb[0].x1[0] = r(-2e-12);
    b
}

fn base_pair(model: BjtModel<Real>, junction_caps: bool) -> (f64, f64) {
    let mut opts = options();
    opts.effects.junction_caps = junction_caps;
    let b = bjt_bench(model, opts);
    let (m, rhs) = b.assemble();
    let row = b.layout.node(NodeId(1)).unwrap();
    (entry(&m, row, row), rhs[row].0)
}

#[test]
fn junction_caps_toggle_changes_bjt_stamp() {
    let (g_on, r_on) = base_pair(charged_bjt(), true);
    let (g_off, r_off) = base_pair(charged_bjt(), false);
    assert!(g_on > g_off, "junction_caps on must add companion conductance");
    assert!(r_on != r_off, "junction_caps on must add history RHS terms");
    let (g_on0, r_on0) = base_pair(bjt_model(), true);
    let (g_off0, r_off0) = base_pair(bjt_model(), false);
    assert_eq!(g_on0.to_bits(), g_off0.to_bits());
    assert_eq!(r_on0.to_bits(), r_off0.to_bits());
}

fn series_case(model: BjtModel<Real>, series: bool) -> (Bench, SparseMatrix<Real>, Vec<Real>) {
    let mut opts = options();
    opts.effects.series_resistance = series;
    let b = bjt_bench(model, opts);
    let (m, rhs) = b.assemble();
    (b, m, rhs)
}

#[test]
fn series_resistance_toggle_changes_bjt_stamp() {
    let model = BjtModel { rb: r(100.0), re: r(1.0), rc: r(10.0), ..bjt_model() };
    let (b_on, m_on, _) = series_case(model, true);
    let (_, m_off, _) = series_case(model, false);
    assert_eq!(b_on.layout.n_nodes, 2 + 3);
    let d_on = entry(&m_on, 0, 0);
    let d_off = entry(&m_off, 0, 0);
    assert_eq!(d_on, 1.0 / 100.0);
    assert!(d_off != d_on);
    assert_eq!(entry(&m_off, 2, 2), 1.0);
    let (b_def, m_def_on, r_def_on) = series_case(bjt_model(), true);
    let (_, m_def_off, r_def_off) = series_case(bjt_model(), false);
    assert_eq!(b_def.layout.n_nodes, 2);
    assert_eq!(entry(&m_def_on, 0, 0).to_bits(), entry(&m_def_off, 0, 0).to_bits());
    assert_eq!(r_def_on[0].0.to_bits(), r_def_off[0].0.to_bits());
}

fn q_be(m: &BjtModel<Real>, v: f64) -> (f64, f64) {
    let nvf = m.nf.0 * vt();
    let ef = (v / nvf).clamp(-40.0, 40.0).exp();
    let (q, c) = bjt_charge_be(m, r(v), r(m.is.0 * (ef - 1.0)), r(m.is.0 * ef / nvf));
    (q.0, c.0)
}

fn q_bc(m: &BjtModel<Real>, v: f64) -> (f64, f64) {
    let nvr = m.nr.0 * vt();
    let er = (v / nvr).clamp(-40.0, 40.0).exp();
    let (q, c) = bjt_charge_bc(m, r(v), r(m.is.0 * (er - 1.0)), r(m.is.0 * er / nvr));
    (q.0, c.0)
}

#[test]
fn bjt_charge_is_integral_of_cap() {
    let m = charged_bjt();
    for &v in &[-5.0, -1.0, 0.0, 0.2, 0.37, 0.5, 0.65] {
        let (_, c) = q_be(&m, v);
        let d = 1e-7;
        let dq = (q_be(&m, v + d).0 - q_be(&m, v - d).0) / (2.0 * d);
        assert!(
            (dq - c).abs() < 1e-4 * c.abs().max(1e-18),
            "dQbe/dv != Cbe at v={v}: fd={dq:e} c={c:e}"
        );
    }
    for &v in &[-12.0, -3.0, 0.0, 0.37, 0.5] {
        let (_, c) = q_bc(&m, v);
        let d = 1e-7;
        let dq = (q_bc(&m, v + d).0 - q_bc(&m, v - d).0) / (2.0 * d);
        assert!(
            (dq - c).abs() < 1e-4 * c.abs().max(1e-18),
            "dQbc/dv != Cbc at v={v}: fd={dq:e} c={c:e}"
        );
    }
}

/// Base and collector residual with the base at `vb` (before at `vb_prev`), the
/// collector at `vc` and the emitter grounded, at an operating point.
fn bjt_residual(model: BjtModel<Real>, vb: f64, vc: f64, vb_prev: f64) -> (f64, f64) {
    let mut cir = Circuit::new();
    let nb = cir.node("b");
    let nc = cir.node("c");
    cir.add(Device::Bjt { name: "Q1".into(), c: nc, b: nb, e: NodeId(0), model });
    let mut b = Bench::new(cir, options(), 0.0);
    let b_row = b.layout.node(nb).unwrap();
    let c_row = b.layout.node(nc).unwrap();
    b.x[b_row] = r(vb);
    b.x[c_row] = r(vc);
    b.x_prev[b_row] = r(vb_prev);
    b.x_prev[c_row] = r(vc);
    b.dc = true;
    let f = b.residual();
    (f[b_row].0, f[c_row].0)
}

#[test]
fn bjt_var_scales_transport_current() {
    let vt = vt();
    let (vb, vc) = (0.65, 3.0);
    let m_inf = BjtModel { vaf: Some(r(100.0)), ..bjt_model() };
    let m_fin = BjtModel { vaf: Some(r(100.0)), var: Some(r(15.0)), ..bjt_model() };
    let (fb_inf, fc_inf) = bjt_residual(m_inf, vb, vc, vb);
    let (fb_fin, fc_fin) = bjt_residual(m_fin, vb, vc, vb);
    assert_eq!(fb_inf.to_bits(), fb_fin.to_bits());
    let (vbe, vbc) = (vb, vb - vc);
    let q_inf = 1.0 - vbc / 100.0;
    let q_fin = q_inf - vbe / 15.0;
    assert!(fc_fin.abs() < fc_inf.abs(), "finite VAR must reduce ic");
    let ratio = fc_fin / fc_inf;
    assert!(
        (ratio - q_fin / q_inf).abs() < 1e-9,
        "ic ratio {ratio} != q1 ratio {}",
        q_fin / q_inf
    );
    let is = m_inf.is.0;
    let cf = is * ((vbe / vt).clamp(-40.0, 40.0).exp() - 1.0);
    let cr = is * ((vbc / vt).clamp(-40.0, 40.0).exp() - 1.0);
    let ic = (cf - cr) * q_inf - cr / m_inf.br.0;
    assert!(
        (fc_inf.abs() - ic).abs() < 1e-9 * ic,
        "VAR=inf collector current {} != VAF-only analytic {ic}",
        fc_inf.abs()
    );
}

#[test]
fn bjt_vbc_limiter_uses_reverse_vcrit() {
    let vt = vt();
    let m = BjtModel { nr: r(1.5), ..bjt_model() };
    let vcrit_f = vcrit(m.is, r(m.nf.0 * vt));
    let vcrit_r = vcrit(m.is, r(m.nr.0 * vt));
    assert!(vcrit_r.0 > vcrit_f.0, "nr-built vcrit must scale with nr");
    assert!(vcrit_f.0 < 1.0 && 1.0 < vcrit_r.0);
    assert_eq!(pnjlim(r(1.0), r(0.9), r(m.nr.0 * vt), vcrit_r), r(1.0));
    assert_ne!(pnjlim(r(1.0), r(0.9), r(m.nr.0 * vt), vcrit_f), r(1.0));
    let (fb, _) = bjt_residual(m, 1.0, 0.0, 0.9);
    let (nvf, nvr) = (m.nf.0 * vt, m.nr.0 * vt);
    let vbe_lim = pnjlim(r(1.0), r(0.9), r(nvf), vcrit_f).0;
    let ef = (vbe_lim / nvf).clamp(-40.0, 40.0).exp();
    let er = (1.0f64 / nvr).clamp(-40.0, 40.0).exp();
    let ib = m.is.0 * (ef - 1.0) / m.bf.0 + m.is.0 * (er - 1.0) / m.br.0;
    let gpi = m.is.0 * ef / (nvf * m.bf.0);
    let expected = ib + gpi * (1.0 - vbe_lim);
    assert!(
        (fb.abs() - expected).abs() < 1e-9 * expected,
        "base residual {} != analytic {expected} at the nr-limited iterate",
        fb.abs()
    );
}

#[test]
fn depletion_helper_is_bit_identical_to_diode_charge() {
    let m = DiodeModel { cjo: r(4e-12), vj: r(0.7), m: r(0.45), ..diode_model() };
    for &vd in &[-5.0, -1.0, 0.0, 0.2, 0.34, 0.35, 0.4, 0.9] {
        let (q_h, c_h) = depletion_charge(m.cjo, m.vj, m.m, r(vd));
        let (q_d, c_d) = junction(&m, vd);
        assert_eq!(q_d.to_bits(), (0.0f64 + q_h.0).to_bits(), "Q mismatch at {vd}");
        assert_eq!(c_d.to_bits(), (0.0f64 + c_h.0).to_bits(), "C mismatch at {vd}");
    }
}

fn channel(beta: f64, nvt: f64, vov: f64, vds: f64, lambda: f64) -> (f64, f64) {
    let (id, gm, _) = mos_channel(r(beta), r(nvt), r(vov), r(vds), r(lambda), r(0.0));
    (id.0, gm.0)
}

#[test]
fn mos_channel_id_and_gm_continuous_across_vth() {
    let vt = vt();
    for &(beta, nsub, lambda, vds) in &[
        (2e-5, 1.0, 0.0, 2.0),
        (2e-5, 2.0, 0.02, 2.0),
        (20.0, 1.5, 0.05, 2.0),
        (20.0, 1.5, 0.05, 0.03),
    ] {
        let nvt: f64 = nsub * vt;
        let f = |vov: f64| channel(beta, nvt, vov, vds, lambda);
        let clm = 1.0 + lambda * vds;
        let h = 1e-4;
        let mut prev = f(-0.3);
        let mut k = 1;
        while -0.3 + (k as f64) * h <= 0.3 {
            let vov = -0.3 + (k as f64) * h;
            let cur = f(vov);
            let gmax = prev.1.max(cur.1);
            assert!(
                (cur.0 - prev.0).abs() <= gmax * h * 1.5 + 1e-18,
                "id jump at vov={vov} (beta={beta}): {} -> {}",
                prev.0,
                cur.0
            );
            assert!(
                (cur.1 - prev.1).abs() <= 3.0 * beta * clm * h + 1e-18,
                "gm jump at vov={vov} (beta={beta}): {} -> {}",
                prev.1,
                cur.1
            );
            prev = cur;
            k += 1;
        }
        let below = f(-1e-9);
        let at = f(0.0);
        let above = f(1e-9);
        assert!((above.0 - below.0).abs() <= 1e-6 * at.0.abs().max(1e-30));
        assert!((above.1 - below.1).abs() <= 1e-6 * at.1.abs().max(1e-30));
        for &v in &[-0.1, -0.02, 0.0, 0.02, 0.1] {
            let d = 1e-7;
            let fd = (f(v + d).0 - f(v - d).0) / (2.0 * d);
            let gm = f(v).1;
            assert!(
                (fd - gm).abs() <= 1e-4 * gm.abs().max(1e-15),
                "gm != d id/d vgs at vov={v} (beta={beta}): fd={fd:e} gm={gm:e}"
            );
        }
    }
}

#[test]
fn mos_channel_regions_physically_sane() {
    let nvt = vt();
    let beta = 2e-5;
    let f = |vov: f64, vds: f64| channel(beta, nvt, vov, vds, 0.0);
    let ratio = f(-0.2 + nvt, 2.0).0 / f(-0.2, 2.0).0;
    assert!(
        (ratio - std::f64::consts::E).abs() < 0.05 * std::f64::consts::E,
        "subthreshold slope: id ratio per n*Vt = {ratio}, want ~e"
    );
    let sq = 0.5 * beta * 0.5 * 0.5;
    assert!(((f(0.5, 2.0).0 - sq) / sq).abs() < 1e-3);
    assert_eq!(f(-0.1, 0.0).0, 0.0);
    assert_eq!(f(0.5, 0.0).0, 0.0);
}

/// Repeated cells of resistors, a capacitor, a diode, a transistor, a comparator and
/// a pair of switches.
fn big_board(cells: usize) -> Circuit<Real> {
    let mut c = Circuit::new();
    let gnd = NodeId(0);
    let vdd = c.node("vdd");
    c.add(Device::Vsource {
        name: "VDD".into(),
        p: vdd,
        n: gnd,
        kind: SourceKind::Dc(r(5.0)),
    });
    for k in 0..cells {
        let m = c.node(&format!("m{k}"));
        let s = c.node(&format!("s{k}"));
        let o = c.node(&format!("o{k}"));
        let com = c.node(&format!("c{k}"));
        c.add(Device::Resistor { name: format!("R{k}a"), a: vdd, b: m, ohms: r(10e3), tc1: None });
        c.add(Device::Resistor { name: format!("R{k}b"), a: m, b: gnd, ohms: r(47e3), tc1: None });
        c.add(Device::Capacitor { name: format!("C{k}"), a: m, b: gnd, farads: r(1e-9), ic: None });
        c.add(Device::Diode { name: format!("D{k}"), a: m, k: s, model: diode_model() });
        c.add(Device::Bjt { name: format!("Q{k}"), c: vdd, b: s, e: gnd, model: bjt_model() });
        c.add(Device::Comparator {
            name: format!("K{k}"),
            out: o,
            inp: m,
            inn: s,
            out_lo: r(0.0),
            out_hi: r(5.0),
            hysteresis: r(0.1),
        });
        c.add(Device::VSwitch {
            name: format!("G{k}_s1"),
            a: com,
            b: m,
            ctrl_p: o,
            ctrl_n: gnd,
            von: r(3.0),
            voff: r(2.0),
            ron: r(10.0),
            roff: r(1e9),
        });
        c.add(Device::VSwitch {
            name: format!("G{k}_s0"),
            a: com,
            b: vdd,
            ctrl_p: o,
            ctrl_n: gnd,
            von: r(2.0),
            voff: r(3.0),
            ron: r(10.0),
            roff: r(1e9),
        });
        c.add(Device::Resistor { name: format!("R{k}c"), a: com, b: gnd, ohms: r(100.0), tc1: None });
    }
    c
}

#[test]
fn residual_sink_matches_assembled_row_product() {
    let mut b = Bench::new(big_board(64), options(), 0.0);
    let n = b.layout.size;
    b.x = (0..n).map(|i| r(((i as f64 * 0.7391).sin()) * 3.0 + 0.1)).collect();
    b.x_prev = b.x.clone();
    b.coeffs = IntegCoeffs::for_step(Integration::Trapezoidal, r(1e-7), false);
    b.gmin = 1e-12;
    b.branch_reg = 1e-2;
    let (m, rhs) = b.assemble();
    let f = b.residual();
    for i in 0..b.layout.n_nodes {
        let mut acc = 0.0;
        let mut mag = rhs[i].0.abs();
        for &(col, val) in m.row(i) {
            acc += val.0 * b.x[col].0;
            mag += (val.0 * b.x[col].0).abs();
        }
        let assembled = acc - rhs[i].0;
        let err = (f[i].0 - assembled).abs();
        let bound = 1e-12 * mag.max(1.0);
        assert!(
            err <= bound,
            "row {i}: sink F={} assembled F={assembled} err={err:e} > bound={bound:e} (mag {mag:e})",
            f[i].0
        );
    }
}

#[test]
fn fd_partials_match_analytic() {
    let deps = [BDep::Volt(NodeId(1)), BDep::Branch(DeviceId(0))];
    let opts = options();
    for &(v, i, t) in &[
        (0.0, 0.0, 0.0),
        (1.0, 0.05, 1e-3),
        (-3.0, -0.2, 0.5),
        (0.25, 0.4, 2.0),
        (10.0, -0.02, 10.0),
    ] {
        let expr = |d: &Vec<Real>| -> Result<Real, String> {
            Ok(r(2.0 * d[0].0 + 100.0 * (5.0 * d[1].0).tanh() + 0.1 * t))
        };
        let mut vals = vec![r(v), r(i)];
        let (f0, partials) = behavioral_eval_partials(expr, &deps, &mut vals, &opts).unwrap();
        let f_true: f64 = 2.0 * v + 100.0 * (5.0f64 * i).tanh() + 0.1 * t;
        assert!((f0.0 - f_true).abs() < 1e-12 * f_true.abs().max(1.0), "f0 at ({v},{i},{t})");
        let dv_err = ((partials[0].0 - 2.0) / 2.0).abs();
        assert!(dv_err < 1e-9, "df/dv at ({v},{i},{t}): {} (rel {dv_err:e})", partials[0].0);
        let sech2 = 1.0 / (5.0f64 * i).cosh().powi(2);
        let di_true = 500.0 * sech2;
        let di_err = ((partials[1].0 - di_true) / di_true.abs().max(1e-12)).abs();
        assert!(
            di_err < 5e-3,
            "df/di at ({v},{i},{t}): fd={} analytic={di_true} rel={di_err:e}",
            partials[1].0
        );
    }
}

#[test]
fn fd_partials_report_faults() {
    let opts = options();
    let deps = [BDep::Volt(NodeId(1))];
    let ln = |d: &Vec<Real>| -> Result<Real, String> { Ok(r(d[0].0.ln())) };
    let mut vals = vec![r(-1.0)];
    assert!(behavioral_eval_partials(ln, &deps, &mut vals, &opts).is_err());
    let div = |d: &Vec<Real>| -> Result<Real, String> { Ok(r(1.0 / d[0].0)) };
    let mut vals = vec![r(0.0)];
    assert!(behavioral_eval_partials(div, &deps, &mut vals, &opts).is_err());
    let flip = |d: &Vec<Real>| -> Result<Real, String> { Ok(r((0.0 - d[0].0).ln())) };
    let mut vals = vec![r(-1e-15)];
    assert!(behavioral_eval_partials(flip, &deps, &mut vals, &opts).is_err());
    assert_eq!(vals[0], r(-1e-15));
    let broken = |_: &Vec<Real>| -> Result<Real, String> { Err("no such name".to_string()) };
    let fault = behavioral_eval_partials(broken, &deps, &mut vals, &opts).unwrap_err();
    assert!(matches!(fault, ExprFault::Eval(text) if text == "no such name"));
}

/// The first fault of an assembly is kept, with the source named.
#[test]
fn first_behavioral_fault_is_kept() {
    let mut note = FaultNote::new();
    assert_eq!(note.take_behavioral_fault(), None);
    note.note_behavioral_fault("B1", "value is not finite");
    note.note_behavioral_fault("B2", "no such name");
    assert_eq!(
        note.take_behavioral_fault(),
        Some("behavioral source `B1`: value is not finite".to_string())
    );
    assert_eq!(note.take_behavioral_fault(), None);
}

/// A resistor and a source: the exact system.
#[test]
fn divider_stamps_the_exact_system() {
    let mut c = Circuit::new();
    let a = c.node("a");
    let b = c.node("b");
    c.add(Device::Vsource { name: "V1".into(), p: a, n: NodeId(0), kind: SourceKind::Dc(r(5.0)) });
    c.add(Device::Resistor { name: "R1".into(), a, b, ohms: r(1000.0), tc1: None });
    c.add(Device::Resistor { name: "R2".into(), a: b, b: NodeId(0), ohms: r(4000.0), tc1: None });
    let bench = Bench::new(c, options(), 0.0);
    let (m, rhs) = bench.assemble();
    assert_eq!(entry(&m, 0, 0), 1.0 / 1000.0);
    assert_eq!(entry(&m, 0, 1), -1.0 / 1000.0);
    assert_eq!(entry(&m, 1, 1), 1.0 / 1000.0 + 1.0 / 4000.0);
    assert_eq!(entry(&m, 0, 2), 1.0);
    assert_eq!(entry(&m, 2, 0), 1.0);
    assert_eq!(rhs.iter().map(|v| v.0).collect::<Vec<f64>>(), vec![0.0, 0.0, 5.0]);
    let mut sym = m.factorize_symbolic();
    assert!(sym.refactor(&m));
    let mut x = rhs.clone();
    let mut scratch = vec![r(0.0); 3];
    sym.solve(&mut x, &mut scratch);
    assert!((x[0].0 - 5.0).abs() < 1e-12);
    assert!((x[1].0 - 4.0).abs() < 1e-12);
    assert!((x[2].0 + 1e-3).abs() < 1e-15);
}

/// Integration rules: backward Euler, trapezoidal, and Gear with its first step.
#[test]
fn integration_coefficients_are_exact() {
    let be = IntegCoeffs::for_step(Integration::BackwardEuler, r(0.5), false);
    assert_eq!((be.g.0, be.a1.0, be.a2.0), (2.0, 2.0, 0.0));
    let tr = IntegCoeffs::for_step(Integration::Trapezoidal, r(0.5), false);
    assert_eq!((tr.g.0, tr.a1.0, tr.a2.0), (4.0, 4.0, 0.0));
    let gear = IntegCoeffs::for_step(Integration::Gear2, r(0.5), false);
    assert_eq!((gear.g.0, gear.a1.0, gear.a2.0), (3.0, 4.0, 1.0));
    let first = IntegCoeffs::for_step(Integration::Gear2, r(0.5), true);
    assert_eq!((first.g.0, first.a1.0, first.a2.0), (2.0, 2.0, 0.0));
}

/// A device writes only cells that its pattern reserved.
#[test]
fn writes_stay_in_the_reserved_pattern() {
    let mut b = Bench::new(big_board(3), options(), 0.4);
    b.gmin = 1e-12;
    let mut m = SparseMatrix::new(b.layout.size);
    reserve_pattern(&b.circuit, &b.layout, &mut m);
    let widths: Vec<usize> = (0..b.layout.size).map(|i| m.row(i).len()).collect();
    let mut rhs = vec![r(0.0); b.layout.size];
    stamp_all(&b.ctx(), &mut m, &mut rhs);
    let after: Vec<usize> = (0..b.layout.size).map(|i| m.row(i).len()).collect();
    assert_eq!(widths, after);
}

/// A MOS transistor in saturation draws the square-law current.
#[test]
fn mosfet_residual_is_the_square_law() {
    let mut cir = Circuit::new();
    let d = cir.node("d");
    let g = cir.node("g");
    cir.add(Device::Mosfet { name: "M1".into(), d, g, s: NodeId(0), b: None, model: mos_model() });
    let mut b = Bench::new(cir, options(), 0.0);
    b.x[0] = r(3.0);
    b.x[1] = r(1.7);
    b.x_prev = b.x.clone();
    b.dc = true;
    let f = b.residual();
    let square = 0.5 * 2e-5;
    assert!(((f[0].0 - square) / square).abs() < 1e-3, "drain current {}", f[0].0);
    assert_eq!(f[1].0, 0.0);
}

/// Drain and source resistances put the transistor on nodes of its own; a transistor
/// between two resistors is the same system.
#[test]
fn mosfet_series_resistances_are_resistors() {
    let model = MosfetModel {
        beta: r(1e-2),
        c_ox: r(1e-12),
        cgs_ov: r(2e-13),
        cgd_ov: r(3e-13),
        cbd: r(1e-12),
        gate_charge: true,
        body_diode: true,
        ..mos_model()
    };
    let ohmic = MosfetModel { rd: r(4.0), rs: r(2.0), ..model };
    let mut inside = Circuit::new();
    let (d, g) = (inside.node("d"), inside.node("g"));
    inside.add(Device::Mosfet { name: "M1".into(), d, g, s: NodeId(0), b: None, model: ohmic });
    let mut apart = Circuit::new();
    let (d, g) = (apart.node("d"), apart.node("g"));
    let (di, si) = (apart.node("di"), apart.node("si"));
    apart.add(Device::Resistor { name: "RD".into(), a: d, b: di, ohms: r(4.0), tc1: None });
    apart.add(Device::Resistor { name: "RS".into(), a: NodeId(0), b: si, ohms: r(2.0), tc1: None });
    apart.add(Device::Mosfet { name: "M1".into(), d: di, g, s: si, b: None, model });
    let x: Vec<Real> = [3.0, 2.5, 2.9, 0.05].iter().map(|v| r(*v)).collect();
    let bench = |c: Circuit<Real>, series: bool| {
        let mut opts = options();
        opts.effects.series_resistance = series;
        let mut b = Bench::new(c, opts, 0.0);
        b.x = x.clone();
        b.x_prev = x.clone();
        b
    };
    let (one, two) = (bench(inside, true), bench(apart, true));
    assert_eq!((one.layout.n_nodes, two.layout.n_nodes), (4, 4));
    let ((m1, rhs1), (m2, rhs2)) = (one.assemble(), two.assemble());
    for i in 0..4 {
        assert!((rhs1[i].0 - rhs2[i].0).abs() < 1e-12);
        for (j, v) in m2.row(i) {
            assert!((entry(&m1, i, *j) - v.0).abs() < 1e-12, "({i}, {j})");
        }
    }
    assert_eq!(entry(&m1, 0, 0), 0.25);
    assert_eq!(entry(&m1, 0, 2), -0.25);
    let (f1, f2) = (one.residual(), two.residual());
    assert!((0..4).all(|i| (f1[i].0 - f2[i].0).abs() < 1e-12));
    let (m, rhs) = planned(&one);
    assert!((0..4).all(|i| (rhs[i].0 - rhs1[i].0).abs() < 1e-12));
    assert_eq!(entry(&m, 2, 2), entry(&m1, 2, 2));

    let mut plain = Circuit::new();
    let (d, g) = (plain.node("d"), plain.node("g"));
    plain.add(Device::Mosfet { name: "M1".into(), d, g, s: NodeId(0), b: None, model });
    let mut off = Circuit::new();
    let (d, g) = (off.node("d"), off.node("g"));
    off.add(Device::Mosfet { name: "M1".into(), d, g, s: NodeId(0), b: None, model: ohmic });
    let (off, mut plain) = (bench(off, false), Bench::new(plain, options(), 0.0));
    plain.x = x[..2].to_vec();
    plain.x_prev = plain.x.clone();
    let ((m, _), (m0, _)) = (off.assemble(), plain.assemble());
    assert_eq!((entry(&m, 2, 2), entry(&m, 3, 3)), (1.0, 1.0));
    assert_eq!(entry(&m, 0, 0), entry(&m0, 0, 0));
}

fn planned(b: &Bench) -> (SparseMatrix<Real>, Vec<Real>) {
    let mut m = SparseMatrix::new(b.layout.size);
    reserve_pattern(&b.circuit, &b.layout, &mut m);
    let plan = StampPlan::compile(&b.circuit, &b.layout, &m);
    m.clear_values();
    let mut rhs = vec![r(0.0); b.layout.size];
    stamp_all_planned(&b.ctx(), &plan, &mut m, &mut rhs);
    (m, rhs)
}

#[test]
fn plan_matches_direct_stamp_for_resistors() {
    let mut c = Circuit::new();
    let a = c.node("a");
    let b = c.node("b");
    c.add(Device::Resistor { name: "R1".into(), a, b, ohms: r(1e3), tc1: None });
    c.add(Device::Resistor { name: "R2".into(), a: b, b: NodeId(0), ohms: r(2e3), tc1: None });
    let layout = Layout::new(&c);
    let mut m = SparseMatrix::new(layout.size);
    reserve_pattern(&c, &layout, &mut m);
    let plan = StampPlan::compile(&c, &layout, &m);
    m.clear_values();
    plan.apply_conductances(&mut m);
    let (g1, g2) = (1e-3, 5e-4);
    let ai = layout.node(a).unwrap();
    let bi = layout.node(b).unwrap();
    assert_eq!(entry(&m, ai, ai), g1);
    assert_eq!(entry(&m, ai, bi), -g1);
    assert_eq!(entry(&m, bi, ai), -g1);
    assert_eq!(entry(&m, bi, bi), g1 + g2);
    assert!(plan.cond_op_count() >= 5);
    assert_eq!(plan.reactive_op_count(), 0);
    assert_eq!(plan.restamp_count(), 0);
}

#[test]
fn planned_assembly_matches_interpreted_on_mixed_board() {
    let mut c = Circuit::new();
    let gnd = NodeId(0);
    let vin = c.node("vin");
    let n1 = c.node("n1");
    let n2 = c.node("n2");
    let n3 = c.node("n3");
    let n4 = c.node("n4");
    let n5 = c.node("n5");
    let n6 = c.node("n6");
    c.add(Device::Vsource { name: "V1".into(), p: vin, n: gnd, kind: SourceKind::Waveform(0) });
    c.add(Device::Resistor { name: "R1".into(), a: vin, b: n1, ohms: r(1e3), tc1: None });
    c.add(Device::Resistor { name: "Rt".into(), a: n1, b: n2, ohms: r(2e3), tc1: Some(r(0.001)) });
    c.add(Device::Capacitor { name: "C1".into(), a: n1, b: gnd, farads: r(1e-9), ic: None });
    c.add(Device::Inductor { name: "L1".into(), a: n2, b: n3, henries: r(1e-6), ic: None });
    c.add(Device::Isource { name: "I1".into(), p: n3, n: gnd, kind: SourceKind::Dc(r(1e-3)) });
    c.add(Device::Diode { name: "D1".into(), a: n1, k: n4, model: diode_model() });
    c.add(Device::Bjt { name: "Q1".into(), c: vin, b: n4, e: gnd, model: bjt_model() });
    c.add(Device::Mosfet { name: "M1".into(), d: n2, g: n1, s: gnd, b: None, model: mos_model() });
    c.add(Device::VSwitch {
        name: "S1".into(),
        a: n3,
        b: n5,
        ctrl_p: n1,
        ctrl_n: gnd,
        von: r(3.0),
        voff: r(2.0),
        ron: r(10.0),
        roff: r(1e9),
    });
    c.add(Device::OpAmp {
        name: "U1".into(),
        out: n5,
        inp: n1,
        inn: n2,
        reference: None,
        gain: r(1e5),
        rail_lo: r(0.0),
        rail_hi: r(5.0),
    });
    c.add(Device::Comparator {
        name: "K1".into(),
        out: n6,
        inp: n1,
        inn: n2,
        out_lo: r(0.0),
        out_hi: r(5.0),
        hysteresis: r(0.05),
    });
    let mut b = Bench::new(c, options(), 0.0);
    let n = b.layout.size;
    b.x = (0..n).map(|i| r(((i as f64 * 0.7391).sin()) * 3.0 + 0.1)).collect();
    b.x_prev = b.x.clone();
    for (i, v) in b.state.x1.iter_mut().enumerate() {
        *v = r(0.3 * (i as f64 + 1.0));
    }
    for (i, v) in b.state.dx1.iter_mut().enumerate() {
        *v = r(-0.1 * (i as f64 + 1.0));
    }
    b.sources[0] = r(2.5 + 2.0 * (2.0 * std::f64::consts::PI * 1e3 * 1e-6).sin());
    b.sources[5] = r(1e-3);
    b.coeffs = IntegCoeffs::for_step(Integration::Trapezoidal, r(1e-7), false);
    b.gmin = 1e-12;
    let (m_ref, rhs_ref) = b.assemble();
    let (m, rhs) = planned(&b);
    for i in 0..n {
        let row_ref = m_ref.row(i);
        let row = m.row(i);
        assert_eq!(row.len(), row_ref.len(), "row {i} pattern changed");
        for (k, (&(cc, vv), &(cr, vr))) in row.iter().zip(row_ref.iter()).enumerate() {
            assert_eq!(cc, cr, "row {i} slot {k} column changed");
            let err = (vv.0 - vr.0).abs();
            let bound = 1e-12 * vr.0.abs().max(1.0);
            assert!(err <= bound, "matrix ({i},{cc}): planned {vv:?} vs interpreted {vr:?}");
        }
        let err = (rhs[i].0 - rhs_ref[i].0).abs();
        let bound = 1e-12 * rhs_ref[i].0.abs().max(1.0);
        assert!(err <= bound, "rhs[{i}]: planned {:?} vs interpreted {:?}", rhs[i], rhs_ref[i]);
    }
}

#[test]
fn planned_assembly_falls_back_on_dc_context() {
    let mut c = Circuit::new();
    let a = c.node("a");
    let gnd = NodeId(0);
    c.add(Device::Vsource { name: "V".into(), p: a, n: gnd, kind: SourceKind::Dc(r(1.0)) });
    c.add(Device::Capacitor { name: "C".into(), a, b: gnd, farads: r(1e-9), ic: Some(r(0.5)) });
    let mut b = Bench::new(c, options(), 0.0);
    b.coeffs = IntegCoeffs::for_step(Integration::Trapezoidal, r(1.0), true);
    b.dc = true;
    b.gmin = 1e-12;
    let mut ctx = b.ctx();
    ctx.use_ic = true;
    let n = b.layout.size;
    let mut m_ref = SparseMatrix::new(n);
    reserve_pattern(&b.circuit, &b.layout, &mut m_ref);
    let mut m = m_ref.clone();
    let plan = StampPlan::compile(&b.circuit, &b.layout, &m);
    let mut rhs_ref = vec![r(0.0); n];
    stamp_all(&ctx, &mut m_ref, &mut rhs_ref);
    m.clear_values();
    let mut rhs = vec![r(0.0); n];
    stamp_all_planned(&ctx, &plan, &mut m, &mut rhs);
    for i in 0..n {
        assert_eq!(m.row(i), m_ref.row(i), "dc fallback row {i} not bit-identical");
        assert_eq!(rhs[i], rhs_ref[i], "dc fallback rhs {i} not bit-identical");
    }
}

/// Two coupled inductors: the mutual term on both branch rows.
#[test]
fn coupled_inductors_share_their_mutual_term() {
    let mut c = Circuit::new();
    let gnd = NodeId(0);
    let p = c.node("p");
    let s = c.node("s");
    let l1 = c.add(Device::Inductor { name: "L1".into(), a: p, b: gnd, henries: r(4.0), ic: None });
    let l2 = c.add(Device::Inductor { name: "L2".into(), a: s, b: gnd, henries: r(9.0), ic: None });
    c.add(Device::Coupling { name: "K1".into(), l1, l2, k: r(0.5) });
    let layout = Layout::new(&c);
    assert_eq!(layout.mutual_partners(l1), &[(l2, r(3.0))]);
    assert_eq!(layout.mutual_partners(l2), &[(l1, r(3.0))]);
    let mut b = Bench::new(c, options(), 0.0);
    b.coeffs = IntegCoeffs::for_step(Integration::BackwardEuler, r(1.0), true);
    let (m, _) = b.assemble();
    let (b1, b2) = (b.layout.branch(l1).unwrap(), b.layout.branch(l2).unwrap());
    assert_eq!(entry(&m, b1, b1), -4.0);
    assert_eq!(entry(&m, b1, b2), -3.0);
    assert_eq!(entry(&m, b2, b1), -3.0);
    assert_eq!(entry(&m, b2, b2), -9.0);
}
