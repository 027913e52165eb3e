use hauksbee_solve::options::{DeviceEffects, Integration, SolverOptions};
use hauksbee_solve::rawfile::{build_table, pad_exponent, var_type, write_ascii_rawfile, RawPlot};
use hauksbee_solve::scalar::Scalar;
use hauksbee_solve::sim::output::{error_budget, SimOutput};

#[derive(Clone, Copy, Debug, PartialEq)]
struct Real(f64);

impl Scalar for Real {
    fn exact() -> bool { false }
    fn spec_zero() -> Self { Self::zero() }
    fn spec_int(n: i64) -> Self { Self::from_int(n) }
    fn spec_plus(self, o: Self) -> Self { self.plus(o) }
    fn spec_minus(self, o: Self) -> Self { self.minus(o) }
    fn spec_times(self, o: Self) -> Self { self.times(o) }
    fn spec_over(self, o: Self) -> Self { self.over(o) }
    fn spec_negated(self) -> Self { self.negated() }
    fn spec_abs(self) -> Self { self.abs() }
    fn spec_sqrt(self) -> Self { self.sqrt() }
    fn spec_exp(self) -> Self { self.exp() }
    fn spec_ln(self) -> Self { self.ln() }
    fn spec_ln_1p(self) -> Self { self.ln_1p() }
    fn spec_tanh(self) -> Self { self.tanh() }
    fn spec_pow(self, o: Self) -> Self { self.pow(o) }
    fn spec_less(self, o: Self) -> bool { self.less(o) }
    fn spec_at_most(self, o: Self) -> bool { self.at_most(o) }
    fn spec_is_zero(self) -> bool { self.is_zero() }
    fn spec_finite(self) -> bool { self.finite() }
    fn laws(_: Self, _: Self, _: Self) {}
    fn integer_laws(_: i64) {}
    fn zero() -> Self { Real(0.0) }
    fn from_int(n: i64) -> Self { Real(n as f64) }
    fn plus(self, o: Self) -> Self { Real(self.0 + o.0) }
    fn minus(self, o: Self) -> Self { Real(self.0 - o.0) }
    fn times(self, o: Self) -> Self { Real(self.0 * o.0) }
    fn over(self, o: Self) -> Self { Real(self.0 / o.0) }
    fn negated(self) -> Self { Real(-self.0) }
    fn abs(self) -> Self { Real(self.0.abs()) }
    fn sqrt(self) -> Self { Real(self.0.sqrt()) }
    fn exp(self) -> Self { Real(self.0.exp()) }
    fn ln(self) -> Self { Real(self.0.ln()) }
    fn ln_1p(self) -> Self { Real(self.0.ln_1p()) }
    fn tanh(self) -> Self { Real(self.0.tanh()) }
    fn pow(self, o: Self) -> Self { Real(self.0.powf(o.0)) }
    fn less(self, o: Self) -> bool { self.0 < o.0 }
    fn at_most(self, o: Self) -> bool { self.0 <= o.0 }
    fn is_zero(self) -> bool { self.0 == 0.0 }
    fn finite(self) -> bool { self.0.is_finite() }
}

fn r(v: f64) -> Real {
    Real(v)
}

fn vt() -> f64 {
    8.617333262e-5 * 300.15
}

fn options() -> SolverOptions<Real> {
    SolverOptions {
        integration: Integration::Trapezoidal,
        gmin: r(1e-12),
        reltol: r(1e-3),
        vntol: r(1e-6),
        abstol: r(1e-12),
        chgtol: r(1e-14),
        model_temp: r(27.0),
        vt_nominal: r(vt()),
        vt_model: r(vt()),
        effects: DeviceEffects {
            temperature: false,
            junction_caps: true,
            series_resistance: true,
            early_effect: true,
            spdt_bbm: false,
            spdt_bbm_k: r(1.0),
            switch_ctrl_gm: false,
            comparator_gain: r(100.0),
        },
    }
}

fn out(columns: &[&str], time: Option<Vec<f64>>, rows: Vec<Vec<f64>>) -> SimOutput<Real> {
    SimOutput {
        columns: columns.iter().map(|s| s.to_string()).collect(),
        time: time.map(|t| t.into_iter().map(r).collect()),
        rows: rows.into_iter().map(|row| row.into_iter().map(r).collect()).collect(),
        error_budget: error_budget(&options(), &None).unwrap(),
    }
}

fn fmt_e(x: f64) -> String {
    pad_exponent(&format!("{x:.15e}"))
}

/// The file of a result, with every number printed.
fn file(o: &SimOutput<Real>, plot: RawPlot, title: &str) -> String {
    let turns = o
        .rows
        .iter()
        .map(|row| {
            row.iter()
                .skip(2)
                .step_by(2)
                .map(|p| (r(p.0.to_radians().cos()), r(p.0.to_radians().sin())))
                .collect()
        })
        .collect();
    let table = build_table(o, plot, &turns);
    let numbers = table
        .values
        .iter()
        .map(|row| row.iter().map(|v| (fmt_e(v.0 .0), fmt_e(v.1 .0))).collect())
        .collect();
    write_ascii_rawfile(&table, plot, title, &numbers)
}

#[test]
fn fmt_e_matches_ngspice_exponent_padding() {
    assert_eq!(fmt_e(100.0), "1.000000000000000e+02");
    assert_eq!(fmt_e(5.0), "5.000000000000000e+00");
    assert_eq!(fmt_e(-1.25e-3), "-1.250000000000000e-03");
    assert_eq!(fmt_e(0.0), "0.000000000000000e+00");
}

#[test]
fn transient_golden_structure_and_endpoints() {
    let o = out(
        &["V(out)"],
        Some(vec![0.0, 1e-6, 2e-6]),
        vec![vec![0.0], vec![2.5], vec![5.0]],
    );
    let raw = file(&o, RawPlot::Transient, "rc lowpass step");
    assert!(
        raw.contains("Command: hauksbee sim (ngspice-compatible rawfile)\n"),
        "{raw}"
    );
    assert!(raw.contains("Plotname: Transient Analysis\n"), "{raw}");
    assert!(raw.contains("Flags: real\n"));
    assert!(raw.contains("No. Variables: 2\n"));
    assert!(raw.contains("No. Points: 3\n"));
    assert!(raw.contains("\t0\ttime\ttime\n"));
    assert!(raw.contains("\t1\tV(out)\tvoltage\n"));
    assert!(raw.contains(" 0\t0.000000000000000e+00\n\t0.000000000000000e+00\n"));
    assert!(raw.contains(" 2\t2.000000000000000e-06\n\t5.000000000000000e+00\n"));
}

#[test]
fn operating_point_has_no_scale_variable() {
    let o = out(&["V(in)", "V(out)"], None, vec![vec![5.0, 3.75]]);
    let raw = file(&o, RawPlot::OperatingPoint, "divider");
    assert!(raw.contains("Plotname: Operating Point\n"));
    assert!(raw.contains("No. Variables: 2\n"));
    assert!(raw.contains("No. Points: 1\n"));
    assert!(raw.contains("\t0\tV(in)\tvoltage\n"));
    assert!(raw.contains("\t1\tV(out)\tvoltage\n"));
    assert!(raw.contains(" 0\t5.000000000000000e+00\n\t3.750000000000000e+00\n"));
}

#[test]
fn dc_sweep_scale_is_v_sweep() {
    let o = out(
        &["Vin", "V(d)"],
        None,
        vec![vec![0.0, 0.0], vec![0.1, 0.1], vec![0.2, 0.2]],
    );
    let raw = file(&o, RawPlot::Dc, "diode dc sweep");
    assert!(raw.contains("Plotname: DC transfer characteristic\n"));
    assert!(raw.contains("\t0\tv-sweep\tvoltage\n"), "{raw}");
    assert!(raw.contains("\t1\tV(d)\tvoltage\n"));
    assert!(raw.contains(" 0\t0.000000000000000e+00\n\t0.000000000000000e+00\n"));
    assert!(raw.contains(" 2\t2.000000000000000e-01\n\t2.000000000000000e-01\n"));
}

#[test]
fn ac_is_complex_and_folds_mag_phase_to_re_im() {
    // mag 1, phase -90 deg -> (0, -1).
    let o = out(
        &["frequency", "V(out)", "V(out):phase_deg"],
        None,
        vec![vec![1000.0, 1.0, -90.0]],
    );
    let raw = file(&o, RawPlot::Ac, "rc ac bode");
    assert!(raw.contains("Plotname: AC Analysis\n"));
    assert!(raw.contains("Flags: complex\n"));
    assert!(raw.contains("No. Variables: 2\n"));
    assert!(raw.contains("\t0\tfrequency\tfrequency\n"));
    assert!(raw.contains("\t1\tV(out)\tvoltage\n"));
    assert!(
        raw.contains(" 0\t1.000000000000000e+03,0.000000000000000e+00\n"),
        "{raw}"
    );
    assert!(
        raw.contains(",-1.000000000000000e+00\n"),
        "expected im=-1 phasor line in:\n{raw}"
    );
}

/// A whole file, byte for byte.
#[test]
fn a_whole_file() {
    let o = out(&["Iin", "I(V1)"], None, vec![vec![1.0, -0.5]]);
    let want = "Title: t\nDate: Thu Jan  1 00:00:00  1970\n\
                Command: hauksbee sim (ngspice-compatible rawfile)\n\
                Plotname: DC transfer characteristic\nFlags: real\nNo. Variables: 2\n\
                No. Points: 1\nVariables:\n\t0\ti-sweep\tcurrent\n\t1\tI(V1)\tcurrent\n\
                Values:\n 0\t1.000000000000000e+00\n\t-5.000000000000000e-01\n\n";
    assert_eq!(file(&o, RawPlot::Dc, "t"), want);
}

/// Exponents have a sign and two digits or more; a text without one stays.
#[test]
fn exponents_are_padded() {
    assert_eq!(pad_exponent("1.5e7"), "1.5e+07");
    assert_eq!(pad_exponent("1.5e-123"), "1.5e-123");
    assert_eq!(pad_exponent("2e12"), "2e+12");
    assert_eq!(pad_exponent("inf"), "inf");
    assert_eq!(pad_exponent("NaN"), "NaN");
}

/// `I(..)` is a current, everything else a voltage.
#[test]
fn labels_tell_their_type() {
    assert_eq!(var_type("I(V1)"), "current");
    assert_eq!(var_type("  i(l)"), "current");
    assert_eq!(var_type("V(out)"), "voltage");
    assert_eq!(var_type(""), "voltage");
    assert_eq!(var_type("input"), "voltage");
    assert_eq!(var_type("I"), "voltage");
    assert_eq!(var_type("Iin"), "voltage");
}
