use hauksbee_solve::circuit::NodeId;
use hauksbee_solve::orchestrate::{settle_rails, BalancePolicy, RailChannel, RailLoads};
use hauksbee_solve::scalar::Scalar;

#[derive(Clone, Copy, Debug, PartialEq)]
struct Real(f64);

impl Scalar for Real {
    fn exact() -> bool { false }
    fn spec_zero() -> Self { Self::zero() }
    fn spec_int(n: i64) -> Self { Self::from_int(n) }
    fn spec_plus(self, o: Self) -> Self { self.plus(o) }
    fn spec_minus(self, o: Self) -> Self { self.minus(o) }
    fn spec_times(self, o: Self) -> Self { self.times(o) }
    fn spec_over(self, o: Self) -> Self { self.over(o) }
    fn spec_negated(self) -> Self { self.negated() }
    fn spec_abs(self) -> Self { self.abs() }
    fn spec_sqrt(self) -> Self { self.sqrt() }
    fn spec_exp(self) -> Self { self.exp() }
    fn spec_ln(self) -> Self { self.ln() }
    fn spec_ln_1p(self) -> Self { self.ln_1p() }
    fn spec_tanh(self) -> Self { self.tanh() }
    fn spec_pow(self, o: Self) -> Self { self.pow(o) }
    fn spec_less(self, o: Self) -> bool { self.less(o) }
    fn spec_at_most(self, o: Self) -> bool { self.at_most(o) }
    fn spec_is_zero(self) -> bool { self.is_zero() }
    fn spec_finite(self) -> bool { self.finite() }
    fn laws(_: Self, _: Self, _: Self) {}
    fn integer_laws(_: i64) {}
    fn zero() -> Self { Real(0.0) }
    fn from_int(n: i64) -> Self { Real(n as f64) }
    fn plus(self, o: Self) -> Self { Real(self.0 + o.0) }
    fn minus(self, o: Self) -> Self { Real(self.0 - o.0) }
    fn times(self, o: Self) -> Self { Real(self.0 * o.0) }
    fn over(self, o: Self) -> Self { Real(self.0 / o.0) }
    fn negated(self) -> Self { Real(-self.0) }
    fn abs(self) -> Self { Real(self.0.abs()) }
    fn sqrt(self) -> Self { Real(self.0.sqrt()) }
    fn exp(self) -> Self { Real(self.0.exp()) }
    fn ln(self) -> Self { Real(self.0.ln()) }
    fn ln_1p(self) -> Self { Real(self.0.ln_1p()) }
    fn tanh(self) -> Self { Real(self.0.tanh()) }
    fn pow(self, o: Self) -> Self { Real(self.0.powf(o.0)) }
    fn less(self, o: Self) -> bool { self.0 < o.0 }
    fn at_most(self, o: Self) -> bool { self.0 <= o.0 }
    fn is_zero(self) -> bool { self.0 == 0.0 }
    fn finite(self) -> bool { self.0.is_finite() }
}

/// Blocks that are conductances to ground, each with its own small shunt on its copy
/// of the rail; the undivided answer is known in closed form.
struct LinearLoads {
    feeds: Vec<f64>,
    blocks: Vec<Vec<f64>>,
    v: Vec<f64>,
    gmin: f64,
    resolves: usize,
}

impl LinearLoads {
    fn monolithic_v(&self, i: usize, r_shunt: f64) -> f64 {
        let g_blocks: f64 = self.blocks[i].iter().sum();
        let g_total = 1.0 / r_shunt + g_blocks + self.gmin;
        (self.feeds[i] / r_shunt) / g_total
    }
}

impl RailLoads<Real> for LinearLoads {
    fn covers(&self, i: usize) -> bool { i < self.v.len() }
    fn spec_rail_voltage(&self, i: usize) -> Real { self.rail_voltage(i) }
    fn spec_feed_voltage(&self, i: usize) -> Real { self.feed_voltage(i) }
    fn spec_current_drawn(&self, i: usize) -> Real { self.current_drawn(i) }
    fn spec_n_loads(&self, i: usize) -> usize { self.n_loads(i) }
    fn moves(&self, _i: usize, _v: Real, _after: &Self, _error: Option<String>) -> bool { true }
    fn resolve(&mut self, i: usize, v_rail: Real) -> Result<(), String> {
        self.v[i] = v_rail.0;
        self.resolves += 1;
        Ok(())
    }
    fn rail_voltage(&self, i: usize) -> Real {
        Real(self.v[i])
    }
    fn feed_voltage(&self, i: usize) -> Real {
        Real(self.feeds[i])
    }
    fn current_drawn(&self, i: usize) -> Real {
        Real(self.blocks[i].iter().map(|g| (g + self.gmin) * self.v[i]).sum())
    }
    fn n_loads(&self, i: usize) -> usize {
        self.blocks[i].len()
    }
}

const GMIN: Real = Real(1e-9);
const VNTOL: Real = Real(1e-6);
const ABSTOL: Real = Real(1e-12);

fn channels(n: usize, r: f64) -> Vec<RailChannel<Real>> {
    (0..n)
        .map(|k| RailChannel { rail: NodeId(k as u32 + 1), shunt_ohms: Real(r), children: vec![] })
        .collect()
}

#[test]
fn linear_system_settles_to_the_monolithic_answer_in_one_pass() {
    let r_shunt = 1e3;
    let mut loads = LinearLoads {
        feeds: vec![5.0],
        blocks: vec![vec![1e-4, 2e-4, 5e-4]],
        v: vec![5.0],
        gmin: GMIN.0,
        resolves: 0,
    };
    let ch = channels(1, r_shunt);
    let rep =
        settle_rails(&mut loads, &ch, GMIN, VNTOL, ABSTOL, &BalancePolicy::default()).unwrap();
    assert!(rep.converged, "{rep:?}");
    let expect = loads.monolithic_v(0, r_shunt);
    let err = (loads.v[0] - expect).abs();
    assert!(err < 1e-9, "settled {} vs monolithic {expect}", loads.v[0]);
    assert!(rep.outer_passes <= 2, "{rep:?}");
    assert_eq!(loads.resolves, 2, "{rep:?}");
}

#[test]
fn gmin_double_count_is_corrected() {
    let r_shunt = 1e3;
    let n_blocks = 40;
    let mut loads = LinearLoads {
        feeds: vec![5.0],
        blocks: vec![vec![1e-4; n_blocks]],
        v: vec![0.0],
        gmin: GMIN.0,
        resolves: 0,
    };
    let ch = channels(1, r_shunt);
    let rep =
        settle_rails(&mut loads, &ch, GMIN, VNTOL, ABSTOL, &BalancePolicy::default()).unwrap();
    assert!(rep.converged);
    let expect = loads.monolithic_v(0, r_shunt);
    let err = (loads.v[0] - expect).abs();
    assert!(
        err < 1e-8,
        "gmin surplus leaked into the balance: err {err:.3e} vs expected {expect}"
    );
}

#[test]
fn independent_rails_settle_together() {
    let r_shunt = 2.2e3;
    let mut loads = LinearLoads {
        feeds: vec![5.0, 3.3],
        blocks: vec![vec![1e-3, 1e-4], vec![4e-4]],
        v: vec![0.0, 0.0],
        gmin: GMIN.0,
        resolves: 0,
    };
    let ch = channels(2, r_shunt);
    let rep =
        settle_rails(&mut loads, &ch, GMIN, VNTOL, ABSTOL, &BalancePolicy::default()).unwrap();
    assert!(rep.converged, "{rep:?}");
    for i in 0..2 {
        let expect = loads.monolithic_v(i, r_shunt);
        assert!((loads.v[i] - expect).abs() < 1e-9, "rail {i}: {} vs {expect}", loads.v[i]);
    }
}

/// Blocks that ignore the rail: the residual cannot be moved.
struct FlatLoads;

impl RailLoads<Real> for FlatLoads {
    fn covers(&self, i: usize) -> bool { i == 0 }
    fn spec_rail_voltage(&self, i: usize) -> Real { self.rail_voltage(i) }
    fn spec_feed_voltage(&self, i: usize) -> Real { self.feed_voltage(i) }
    fn spec_current_drawn(&self, i: usize) -> Real { self.current_drawn(i) }
    fn spec_n_loads(&self, i: usize) -> usize { self.n_loads(i) }
    fn moves(&self, _i: usize, _v: Real, _after: &Self, _error: Option<String>) -> bool { true }
    fn resolve(&mut self, _i: usize, _v: Real) -> Result<(), String> {
        Ok(())
    }
    fn rail_voltage(&self, _i: usize) -> Real {
        Real(1.0)
    }
    fn feed_voltage(&self, _i: usize) -> Real {
        Real(2.0)
    }
    fn current_drawn(&self, _i: usize) -> Real {
        Real(0.0)
    }
    fn n_loads(&self, _i: usize) -> usize {
        1
    }
}

#[test]
fn non_convergence_is_reported_not_hidden() {
    let ch = channels(1, 1e3);
    let policy = BalancePolicy { max_outer: 5, ..BalancePolicy::default() };
    let rep = settle_rails(&mut FlatLoads, &ch, GMIN, VNTOL, ABSTOL, &policy).unwrap();
    assert!(!rep.converged);
    assert_eq!(rep.outer_passes, 5);
    assert!(rep.final_residuals[0].0.abs() > 1e-6, "{rep:?}");
}

/// A block that cannot be solved again ends the balance with its error.
struct DeadLoads;

impl RailLoads<Real> for DeadLoads {
    fn covers(&self, i: usize) -> bool { i == 0 }
    fn spec_rail_voltage(&self, i: usize) -> Real { self.rail_voltage(i) }
    fn spec_feed_voltage(&self, i: usize) -> Real { self.feed_voltage(i) }
    fn spec_current_drawn(&self, i: usize) -> Real { self.current_drawn(i) }
    fn spec_n_loads(&self, i: usize) -> usize { self.n_loads(i) }
    fn moves(&self, _i: usize, _v: Real, _after: &Self, _error: Option<String>) -> bool { true }
    fn resolve(&mut self, _i: usize, _v: Real) -> Result<(), String> {
        Err("block died".to_string())
    }
    fn rail_voltage(&self, _i: usize) -> Real {
        Real(0.0)
    }
    fn feed_voltage(&self, _i: usize) -> Real {
        Real(5.0)
    }
    fn current_drawn(&self, _i: usize) -> Real {
        Real(0.0)
    }
    fn n_loads(&self, _i: usize) -> usize {
        1
    }
}

#[test]
fn dead_blocks_end_the_balance() {
    let ch = channels(1, 1e3);
    let rep = settle_rails(&mut DeadLoads, &ch, GMIN, VNTOL, ABSTOL, &BalancePolicy::default());
    assert_eq!(rep.unwrap_err(), "block died");
}

/// Two rails in series: a source feeds MID, and MID feeds INNER.
struct CascadedLoads {
    source: f64,
    blocks: [f64; 2],
    counts: [usize; 2],
    v: [f64; 2],
    gmin: f64,
}

impl RailLoads<Real> for CascadedLoads {
    fn covers(&self, i: usize) -> bool { i < 2 }
    fn spec_rail_voltage(&self, i: usize) -> Real { self.rail_voltage(i) }
    fn spec_feed_voltage(&self, i: usize) -> Real { self.feed_voltage(i) }
    fn spec_current_drawn(&self, i: usize) -> Real { self.current_drawn(i) }
    fn spec_n_loads(&self, i: usize) -> usize { self.n_loads(i) }
    fn moves(&self, _i: usize, _v: Real, _after: &Self, _error: Option<String>) -> bool { true }
    fn resolve(&mut self, i: usize, v_rail: Real) -> Result<(), String> {
        self.v[i] = v_rail.0;
        Ok(())
    }
    fn rail_voltage(&self, i: usize) -> Real {
        Real(self.v[i])
    }
    fn feed_voltage(&self, i: usize) -> Real {
        Real(if i == 0 { self.source } else { self.v[0] })
    }
    fn current_drawn(&self, i: usize) -> Real {
        Real((self.blocks[i] + self.gmin) * self.counts[i] as f64 * self.v[i])
    }
    fn n_loads(&self, i: usize) -> usize {
        self.counts[i]
    }
}

/// The shunt between two torn rails counts at both ends: 5 V, 500 ohm, MID, 1 kohm,
/// INNER settle to the undivided circuit.
#[test]
fn cascaded_rails_settle_to_the_undivided_circuit() {
    let mut loads = CascadedLoads {
        source: 5.0,
        blocks: [2e-5, 3e-5],
        counts: [2, 24],
        v: [5.0, 5.0],
        gmin: GMIN.0,
    };
    let ch = vec![
        RailChannel { rail: NodeId(2), shunt_ohms: Real(500.0), children: vec![(1, Real(1e3))] },
        RailChannel { rail: NodeId(3), shunt_ohms: Real(1e3), children: vec![] },
    ];
    let policy = BalancePolicy { max_outer: 200, ..BalancePolicy::default() };
    let rep = settle_rails(&mut loads, &ch, GMIN, VNTOL, Real(1e-15), &policy).unwrap();
    assert!(rep.converged, "{rep:?}");
    let (g1, g2) = (1.0 / 500.0, 1.0 / 1e3);
    let (a, d) = (g1 + g2 + 2.0 * 2e-5 + 1e-9, g2 + 24.0 * 3e-5 + 1e-9);
    let det = a * d - g2 * g2;
    let (mid, inner) = (g1 * 5.0 * d / det, g1 * 5.0 * g2 / det);
    assert!((loads.v[0] - mid).abs() < 1e-6, "MID {} vs {mid}", loads.v[0]);
    assert!((loads.v[1] - inner).abs() < 1e-6, "INNER {} vs {inner}", loads.v[1]);
    assert!(loads.v[0] < 4.99 && loads.v[1] < loads.v[0] - 0.1);
}

/// No passes, no moves and no error.
#[test]
fn without_passes_nothing_moves() {
    let policy = BalancePolicy { max_outer: 0, ..BalancePolicy::default() };
    let rep =
        settle_rails(&mut DeadLoads, &channels(1, 1e3), GMIN, VNTOL, ABSTOL, &policy).unwrap();
    assert_eq!(rep.outer_passes, 0);
    let mut loads = LinearLoads {
        feeds: vec![5.0],
        blocks: vec![vec![1e-4]],
        v: vec![5.0],
        gmin: GMIN.0,
        resolves: 0,
    };
    settle_rails(&mut loads, &channels(1, 1e3), GMIN, VNTOL, ABSTOL, &policy).unwrap();
    assert_eq!((loads.resolves, loads.v[0]), (0, 5.0));
}
