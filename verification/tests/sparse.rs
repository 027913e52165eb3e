use hauksbee_solve::plan::slots::SlotTable;
use hauksbee_solve::scalar::{Parity, Scalar};
use hauksbee_solve::sparse::SparseMatrix;

#[derive(Clone, Copy, Debug, PartialEq)]
struct Real(f64);

impl Scalar for Real {
    fn exact() -> bool { false }
    fn spec_zero() -> Self { Self::zero() }
    fn spec_int(n: i64) -> Self { Self::from_int(n) }
    fn spec_plus(self, o: Self) -> Self { self.plus(o) }
    fn spec_minus(self, o: Self) -> Self { self.minus(o) }
    fn spec_times(self, o: Self) -> Self { self.times(o) }
    fn spec_over(self, o: Self) -> Self { self.over(o) }
    fn spec_negated(self) -> Self { self.negated() }
    fn spec_abs(self) -> Self { self.abs() }
    fn spec_sqrt(self) -> Self { self.sqrt() }
    fn spec_exp(self) -> Self { self.exp() }
    fn spec_ln(self) -> Self { self.ln() }
    fn spec_ln_1p(self) -> Self { self.ln_1p() }
    fn spec_tanh(self) -> Self { self.tanh() }
    fn spec_pow(self, o: Self) -> Self { self.pow(o) }
    fn spec_less(self, o: Self) -> bool { self.less(o) }
    fn spec_at_most(self, o: Self) -> bool { self.at_most(o) }
    fn spec_is_zero(self) -> bool { self.is_zero() }
    fn spec_finite(self) -> bool { self.finite() }
    fn laws(_: Self, _: Self, _: Self) {}
    fn integer_laws(_: i64) {}
    fn zero() -> Self { Real(0.0) }
    fn from_int(n: i64) -> Self { Real(n as f64) }
    fn plus(self, o: Self) -> Self { Real(self.0 + o.0) }
    fn minus(self, o: Self) -> Self { Real(self.0 - o.0) }
    fn times(self, o: Self) -> Self { Real(self.0 * o.0) }
    fn over(self, o: Self) -> Self { Real(self.0 / o.0) }
    fn negated(self) -> Self { Real(-self.0) }
    fn abs(self) -> Self { Real(self.0.abs()) }
    fn sqrt(self) -> Self { Real(self.0.sqrt()) }
    fn exp(self) -> Self { Real(self.0.exp()) }
    fn ln(self) -> Self { Real(self.0.ln()) }
    fn ln_1p(self) -> Self { Real(self.0.ln_1p()) }
    fn tanh(self) -> Self { Real(self.0.tanh()) }
    fn pow(self, o: Self) -> Self { Real(self.0.powf(o.0)) }
    fn less(self, o: Self) -> bool { self.0 < o.0 }
    fn at_most(self, o: Self) -> bool { self.0 <= o.0 }
    fn is_zero(self) -> bool { self.0 == 0.0 }
    fn finite(self) -> bool { self.0.is_finite() }
}

fn solve_with(m: &SparseMatrix<Real>, b: &[f64]) -> Vec<f64> {
    let mut sym = m.factorize_symbolic();
    assert!(sym.refactor(m), "refactor failed");
    let mut x: Vec<Real> = b.iter().map(|v| Real(*v)).collect();
    let mut scratch = vec![Real(0.0); x.len()];
    sym.solve(&mut x, &mut scratch);
    x.iter().map(|v| v.0).collect()
}

/// Solve forcing the DYNAMIC re-pivot path (no frozen attempt), to validate
/// the fallback factorization in isolation.
fn solve_dynamic(m: &SparseMatrix<Real>, b: &[f64]) -> Vec<f64> {
    let mut sym = m.factorize_symbolic();
    assert!(sym.refactor_dynamic(m), "dynamic refactor failed");
    let mut x: Vec<Real> = b.iter().map(|v| Real(*v)).collect();
    let mut scratch = vec![Real(0.0); x.len()];
    sym.solve(&mut x, &mut scratch);
    x.iter().map(|v| v.0).collect()
}

#[test]
fn structurally_empty_row_is_anchored_instead_of_spinning() {
    let mut m = SparseMatrix::new(2);
    m.add(0, 0, Real(2.0));
    // Row and column 1 are structurally empty. The dynamic singular-block
    // convention anchors that genuinely floating unknown to zero.
    let x = solve_dynamic(&m, &[4.0, 0.0]);
    assert!((x[0] - 2.0).abs() < 1e-12, "defined row changed: {}", x[0]);
    assert_eq!(x[1], 0.0, "floating unknown was not anchored");
}

#[test]
fn gmin_only_unknowns_are_drained_without_quadratic_symbolic_scan() {
    // This is the exact ghost-row shape that a high as-built NodeId used to
    // manufacture: every unknown has only its gmin diagonal. Large enough
    // that the former rescan-per-elimination path is prohibitive, while the
    // correct isolated drain is linear.
    let n: usize = 20_000;
    let mut m = SparseMatrix::new(n);
    for i in 0..n {
        m.add(i, i, Real(1e-12));
    }
    let mut symbolic = m.factorize_symbolic();
    assert_eq!(symbolic.order().len(), n);
    assert!(symbolic.refactor(&m));
    let mut x = vec![Real(0.0); n];
    let mut scratch = vec![Real(0.0); n];
    symbolic.solve(&mut x, &mut scratch);
    assert!(x.iter().all(|v| v.0 == 0.0));
}

#[test]
fn dynamic_matches_frozen_on_random_spd() {
    // A handful of well-conditioned systems: the dynamic path must produce
    // the same solution as the frozen path (to tight tolerance).
    let cases: &[(usize, &[(usize, usize, f64)], &[f64])] = &[
        (
            3,
            &[
                (0, 0, 4.0),
                (0, 1, 1.0),
                (1, 0, 1.0),
                (1, 1, 3.0),
                (1, 2, 1.0),
                (2, 1, 1.0),
                (2, 2, 5.0),
            ],
            &[1.0, 2.0, 3.0],
        ),
        (
            4,
            &[
                (0, 0, 10.0),
                (0, 2, 2.0),
                (1, 1, 7.0),
                (1, 3, -1.0),
                (2, 0, 2.0),
                (2, 2, 9.0),
                (3, 1, -1.0),
                (3, 3, 6.0),
            ],
            &[5.0, -3.0, 4.0, 2.0],
        ),
    ];
    for (n, ent, b) in cases {
        let mut m = SparseMatrix::new(*n);
        for &(r, c, v) in *ent {
            m.add(r, c, Real(v));
        }
        let xf = solve_with(&m, b);
        let xd = solve_dynamic(&m, b);
        for (a, c) in xf.iter().zip(xd.iter()) {
            assert!((a - c).abs() < 1e-9, "frozen {xf:?} vs dynamic {xd:?}");
        }
    }
}

#[test]
fn dynamic_handles_zero_diagonal_mna() {
    // Same MNA-with-zero-diagonal block the frozen path covers; dynamic must
    // also pick the off-diagonal pivot.
    let mut m = SparseMatrix::new(2);
    let gload = 1.0 / 1000.0;
    m.add(0, 0, Real(gload));
    m.add(0, 1, Real(1.0));
    m.add(1, 0, Real(1.0));
    let x = solve_dynamic(&m, &[0.0, 5.0]);
    assert!((x[0] - 5.0).abs() < 1e-9, "v = {}", x[0]);
    assert!((x[1] + gload * 5.0).abs() < 1e-9, "i = {}", x[1]);
}

#[test]
fn dynamic_recovers_where_frozen_order_fails() {
    // Construct a matrix whose min-degree column order leaves a column with
    // a (numerically) zero pivot when factored in that fixed order, but
    // which is non-singular and solvable with dynamic column choice.
    // Arrow-like pattern: the frozen order can corner a near-zero pivot;
    // the dynamic Markowitz path reorders and succeeds. We assert the
    // dynamic path solves it and matches a dense reference.
    let n = 5;
    let mut m = SparseMatrix::new(n);
    // dense-ish coupled block with a tiny (1e-13) diagonal on node 2 that a
    // fixed order can hit as a pivot, but which has strong off-diagonals.
    let ent = [
        (0, 0, 3.0),
        (0, 2, 4.0),
        (1, 1, 2.0),
        (1, 2, 5.0),
        (2, 0, 4.0),
        (2, 1, 5.0),
        (2, 2, 1e-13),
        (2, 3, 6.0),
        (3, 2, 6.0),
        (3, 3, 2.0),
        (3, 4, 1.0),
        (4, 3, 1.0),
        (4, 4, 3.0),
    ];
    for &(r, c, v) in &ent {
        m.add(r, c, Real(v));
    }
    let b = [1.0, 2.0, 3.0, 4.0, 5.0];
    // Dense reference (partial-pivot Gaussian elimination).
    let xref = dense_solve(n, &ent, &b);
    let xd = solve_dynamic(&m, &b);
    for (a, c) in xref.iter().zip(xd.iter()) {
        assert!((a - c).abs() < 1e-6, "ref {xref:?} vs dynamic {xd:?}");
    }
    // And the residual of the dynamic solution is near zero.
    let res = residual(n, &ent, &xd, &b);
    assert!(res < 1e-8, "dynamic residual {res}");
}

fn dense_solve(n: usize, ent: &[(usize, usize, f64)], b: &[f64]) -> Vec<f64> {
    let mut a = vec![0.0f64; n * n];
    for &(r, c, v) in ent {
        a[r * n + c] += v;
    }
    let mut bb = b.to_vec();
    let mut piv: Vec<usize> = (0..n).collect();
    for k in 0..n {
        let mut p = k;
        let mut best = a[piv[k] * n + k].abs();
        for i in (k + 1)..n {
            let mag = a[piv[i] * n + k].abs();
            if mag > best {
                best = mag;
                p = i;
            }
        }
        piv.swap(k, p);
        let rk = piv[k];
        let pivot = a[rk * n + k];
        for i in (k + 1)..n {
            let ri = piv[i];
            let f = a[ri * n + k] / pivot;
            for j in k..n {
                let t = f * a[rk * n + j];
                a[ri * n + j] -= t;
            }
            let t = f * bb[rk];
            bb[ri] -= t;
        }
    }
    let mut x = vec![0.0; n];
    for i in (0..n).rev() {
        let ri = piv[i];
        let mut s = bb[ri];
        for j in (i + 1)..n {
            s -= a[ri * n + j] * x[j];
        }
        x[i] = s / a[ri * n + i];
    }
    x
}

#[test]
fn refactor_default_never_uses_dynamic_and_is_unchanged() {
    // The public `refactor` must, by default, keep the exact frozen-only
    // behaviour: on a matrix the frozen order can factor, the result is
    // identical to refactor_frozen; and `allow_dynamic` is off unless set.
    let mut m = SparseMatrix::new(3);
    m.add(0, 0, Real(4.0));
    m.add(0, 1, Real(1.0));
    m.add(1, 0, Real(1.0));
    m.add(1, 1, Real(3.0));
    m.add(1, 2, Real(1.0));
    m.add(2, 1, Real(1.0));
    m.add(2, 2, Real(5.0));
    let b = [1.0, 2.0, 3.0];

    let mut a = m.factorize_symbolic();
    assert!(!a.allow_dynamic(), "dynamic must default OFF");
    assert!(a.refactor(&m));
    let mut xa: Vec<Real> = b.iter().map(|v| Real(*v)).collect();
    let mut scratch_a = vec![Real(0.0); xa.len()];
    a.solve(&mut xa, &mut scratch_a);

    let mut f = m.factorize_symbolic();
    assert!(f.refactor_frozen(&m));
    let mut xf: Vec<Real> = b.iter().map(|v| Real(*v)).collect();
    let mut scratch_f = vec![Real(0.0); xf.len()];
    f.solve(&mut xf, &mut scratch_f);

    // Byte-for-byte identical: refactor (default) == refactor_frozen.
    assert_eq!(
        xa.to_bits_vec(),
        xf.to_bits_vec(),
        "default refactor diverged from frozen"
    );
}

trait Bits {
    fn to_bits_vec(&self) -> Vec<u64>;
}
impl Bits for Vec<Real> {
    fn to_bits_vec(&self) -> Vec<u64> {
        self.iter().map(|v| v.0.to_bits()).collect()
    }
}

#[test]
fn dynamic_solves_larger_stiff_diode_like_system() {
    // A larger system mixing strong couplings with several tiny (diode-OFF
    // ~1e-12) diagonals: the kind of stiffness that traps a fixed ordering.
    // The dynamic path must solve it to a tight residual versus a dense
    // partial-pivot reference.
    let n = 12;
    let mut ent: Vec<(usize, usize, f64)> = Vec::new();
    // a tridiagonal-ish backbone with some long-range coupling
    for i in 0..n {
        let diag = if i % 4 == 2 {
            1e-12
        } else {
            2.0 + (i as f64) * 0.1
        };
        ent.push((i, i, diag));
        if i > 0 {
            ent.push((i, i - 1, -0.7));
            ent.push((i - 1, i, -0.6));
        }
    }
    // some off-band entries to defeat a banded fixed order
    ent.push((0, n - 1, 0.5));
    ent.push((n - 1, 0, 0.4));
    ent.push((3, 8, 0.9));
    ent.push((8, 3, 0.8));
    let mut m = SparseMatrix::new(n);
    for &(r, c, v) in &ent {
        m.add(r, c, Real(v));
    }
    let b: Vec<f64> = (0..n).map(|i| 1.0 + 0.3 * i as f64).collect();
    let xref = dense_solve(n, &ent, &b);
    let xd = solve_dynamic(&m, &b);
    for (a, c) in xref.iter().zip(xd.iter()) {
        assert!((a - c).abs() < 1e-6, "ref {xref:?} vs dynamic {xd:?}");
    }
    let res = residual(n, &ent, &xd, &b);
    assert!(res < 1e-8, "dynamic residual {res}");
}

fn residual(n: usize, ent: &[(usize, usize, f64)], x: &[f64], b: &[f64]) -> f64 {
    let mut r = b.to_vec();
    for &(rr, c, v) in ent {
        r[rr] -= v * x[c];
    }
    let _ = n;
    r.iter().map(|v| v * v).sum::<f64>().sqrt()
}

#[test]
fn solves_2x2() {
    let mut m = SparseMatrix::new(2);
    m.add(0, 0, Real(2.0));
    m.add(0, 1, Real(1.0));
    m.add(1, 0, Real(1.0));
    m.add(1, 1, Real(3.0));
    let x = solve_with(&m, &[3.0, 5.0]);
    assert!((x[0] - 0.8).abs() < 1e-12, "{x:?}");
    assert!((x[1] - 1.4).abs() < 1e-12, "{x:?}");
}

#[test]
fn solves_diagonal() {
    let mut m = SparseMatrix::new(3);
    m.add(0, 0, Real(4.0));
    m.add(1, 1, Real(2.0));
    m.add(2, 2, Real(8.0));
    let x = solve_with(&m, &[8.0, 6.0, 16.0]);
    assert!((x[0] - 2.0).abs() < 1e-12);
    assert!((x[1] - 3.0).abs() < 1e-12);
    assert!((x[2] - 2.0).abs() < 1e-12);
}

#[test]
fn zero_diagonal_needs_pivoting() {
    // MNA-like: row 0 has no diagonal (a voltage-source branch row).
    let mut m = SparseMatrix::new(2);
    m.add(0, 1, Real(1.0)); // v_node = ...
    m.add(1, 0, Real(1.0));
    m.add(1, 1, Real(1.0));
    let x = solve_with(&m, &[2.0, 3.0]);
    // x1 = 2; x0 + x1 = 3 -> x0 = 1.
    assert!((x[0] - 1.0).abs() < 1e-12, "{x:?}");
    assert!((x[1] - 2.0).abs() < 1e-12, "{x:?}");
}

#[test]
fn solves_tridiagonal() {
    let n = 5;
    let mut m = SparseMatrix::new(n);
    for i in 0..n {
        m.add(i, i, Real(2.0));
        if i > 0 {
            m.add(i, i - 1, Real(-1.0));
        }
        if i + 1 < n {
            m.add(i, i + 1, Real(-1.0));
        }
    }
    let b: Vec<f64> = (0..n)
        .map(|i| 2.0 - (i > 0) as i32 as f64 - (i + 1 < n) as i32 as f64)
        .collect();
    let x = solve_with(&m, &b);
    for xi in x {
        assert!((xi - 1.0).abs() < 1e-9, "got {xi}");
    }
}

#[test]
fn mna_voltage_source_block() {
    // 3 unknowns: node v (0), source branch i (1) tying v to 5 V, and a
    // load resistor from v to ground folded into the node diagonal.
    // Equations:
    //   row0 (KCL at v): g*v + i = 0
    //   row1 (branch):   v       = 5
    let mut m = SparseMatrix::new(2);
    let gload = 1.0 / 1000.0;
    m.add(0, 0, Real(gload));
    m.add(0, 1, Real(1.0));
    m.add(1, 0, Real(1.0));
    let x = solve_with(&m, &[0.0, 5.0]);
    assert!((x[0] - 5.0).abs() < 1e-9, "v = {}", x[0]);
    assert!((x[1] + gload * 5.0).abs() < 1e-9, "i = {}", x[1]);
}

#[test]
fn reuses_ordering_with_new_values() {
    let mut m = SparseMatrix::new(2);
    m.add(0, 0, Real(1.0));
    m.add(1, 1, Real(1.0));
    let mut sym = m.factorize_symbolic();

    m.clear_values();
    m.add(0, 0, Real(4.0));
    m.add(1, 1, Real(2.0));
    assert!(sym.refactor(&m));
    let mut x = vec![Real(8.0), Real(6.0)];
    let mut scratch = vec![Real(0.0); x.len()];
    sym.solve(&mut x, &mut scratch);
    assert!((x[0].0 - 2.0).abs() < 1e-12);
    assert!((x[1].0 - 3.0).abs() < 1e-12);
}

fn odd(n: i64) -> Parity {
    Parity::from_int(n)
}

#[test]
fn exact_solve_satisfies_every_equation() {
    // Modulo two: x0 + x2 = 1, x0 + x1 = 0, x1 + x2 + x0 = 1.
    let entries = [(0, 0), (0, 2), (1, 0), (1, 1), (2, 0), (2, 1), (2, 2)];
    let mut m: SparseMatrix<Parity> = SparseMatrix::new(3);
    for &(r, c) in &entries {
        m.add(r, c, odd(1));
    }
    let b = [odd(1), odd(0), odd(1)];
    let mut sym = m.factorize_symbolic();
    assert!(sym.refactor(&m));
    let mut x = b.to_vec();
    let mut scratch = vec![odd(0); 3];
    sym.solve(&mut x, &mut scratch);
    for r in 0..3 {
        let mut s = odd(0);
        for &(c, v) in m.row(r) {
            s = s.plus(v.times(x[c]));
        }
        assert_eq!(s, b[r], "row {r}");
    }
}

#[test]
fn a_singular_matrix_is_refused_unless_dynamic_is_allowed() {
    let mut m: SparseMatrix<Parity> = SparseMatrix::new(2);
    for r in 0..2 {
        for c in 0..2 {
            m.add(r, c, odd(1));
        }
    }
    let mut sym = m.factorize_symbolic();
    assert!(!sym.refactor(&m));
    sym.set_allow_dynamic(true);
    assert!(sym.refactor(&m));
}

#[test]
fn slots_follow_the_pattern() {
    let mut m: SparseMatrix<Real> = SparseMatrix::new(3);
    m.touch(1, 2);
    m.touch(1, 0);
    assert_eq!(m.slot(1, 0), Some((1, 0)));
    assert_eq!(m.slot(1, 2), Some((1, 1)));
    assert_eq!(m.slot(1, 1), None);
    m.add_at((1, 1), Real(2.5));
    m.add_at((1, 1), Real(0.5));
    assert_eq!(m.row(1).to_vec(), vec![(0, Real(0.0)), (2, Real(3.0))]);
    m.clear_values();
    assert_eq!(m.row(1).to_vec(), vec![(0, Real(0.0)), (2, Real(0.0))]);
    assert_eq!(m.dim(), 3);
}

#[test]
fn nonzeros_are_counted_off_the_diagonal() {
    let mut m: SparseMatrix<Real> = SparseMatrix::new(2);
    m.add(0, 0, Real(2.0));
    m.add(0, 1, Real(1.0));
    m.add(1, 0, Real(1.0));
    m.add(1, 1, Real(3.0));
    let mut sym = m.factorize_symbolic();
    assert!(sym.refactor(&m));
    assert_eq!(sym.nnz(), 2);
}

#[test]
fn an_unfactored_row_beyond_the_system_is_left_alone() {
    let mut m: SparseMatrix<Real> = SparseMatrix::new(1);
    m.add(0, 0, Real(2.0));
    let mut sym = m.factorize_symbolic();
    assert!(sym.refactor(&m));
    let mut x = vec![Real(4.0), Real(7.0)];
    let mut scratch = vec![Real(0.0); 2];
    sym.solve(&mut x, &mut scratch);
    assert_eq!(x, vec![Real(2.0), Real(7.0)]);
}

/// A singular system is solved with its missing equation anchored; what lies beyond
/// the system in the work buffer stays.
#[test]
fn anchored_systems_keep_the_equations_they_have() {
    let mut m = SparseMatrix::new(2);
    m.add(0, 0, Real(2.0));
    let mut f = m.factorize_symbolic();
    assert!(!f.refactor_frozen(&m));
    assert!(!f.refactor(&m));
    f.set_allow_dynamic(true);
    assert!(f.refactor(&m));
    let mut b = vec![Real(4.0), Real(0.0)];
    let mut scratch = vec![Real(9.0); 3];
    f.solve(&mut b, &mut scratch);
    assert_eq!((b[0].0, b[1].0), (2.0, 0.0));
    assert_eq!(scratch[2].0, 9.0);
}

/// A table answers for its own unknowns only.
#[test]
fn tables_answer_for_their_own_unknowns() {
    let mut m: SparseMatrix<Real> = SparseMatrix::new(3);
    for (r, c) in [(0, 0), (0, 1), (0, 2), (2, 0)] {
        m.touch(r, c);
    }
    let table = SlotTable::build(vec![0, 2], &m);
    assert_eq!(table.lookup(0, 2, &m), m.slot(0, 2));
    assert_eq!(table.lookup(2, 0, &m), Some((2, 0)));
    assert_eq!(table.lookup(2, 2, &m), None);
    assert_eq!(table.lookup(0, 1, &m), None);
    assert_eq!(table.lookup(1, 0, &m), None);
}

/// Without the fallback a refactorization is the frozen one, to the last bit; with it
/// too, where the frozen order finds its pivots.
#[test]
fn refactoring_is_frozen_to_the_last_bit() {
    let mut m = SparseMatrix::new(3);
    for (r, c, v) in [
        (0, 0, 0.1), (0, 1, -0.7), (1, 0, 0.1), (1, 1, 3.0), (1, 2, 0.3), (2, 1, 1.0 / 3.0),
        (2, 2, 7.0),
    ] {
        m.add(r, c, Real(v));
    }
    let mut plain = m.factorize_symbolic();
    let mut fallback = m.factorize_symbolic();
    fallback.set_allow_dynamic(true);
    let mut frozen = m.factorize_symbolic();
    assert!(plain.refactor(&m) && fallback.refactor(&m) && frozen.refactor_frozen(&m));
    let solve = |f: &hauksbee_solve::sparse::Symbolic<Real>| {
        let mut b = vec![Real(1.0), Real(0.2), Real(-0.9)];
        f.solve(&mut b, &mut vec![Real(0.0); 3]);
        b.iter().map(|v| v.0.to_bits()).collect::<Vec<u64>>()
    };
    assert_eq!(solve(&plain), solve(&frozen));
    assert_eq!(solve(&fallback), solve(&frozen));
}

/// A dynamic pivot is never small in its column: the tiny corner is passed over, and
/// the solve is accurate. The same matrix in two symbolic objects solves to the same
/// bits.
#[test]
fn dynamic_pivots_pass_over_tiny_entries() {
    let mut m = SparseMatrix::new(2);
    for (r, c, v) in [(0, 0, 1e-20), (0, 1, 1.0), (1, 0, 1.0), (1, 1, 1.0)] {
        m.add(r, c, Real(v));
    }
    let solve = || {
        let mut f = m.factorize_symbolic();
        assert!(f.refactor_dynamic(&m));
        let mut b = vec![Real(1.0), Real(3.0)];
        f.solve(&mut b, &mut vec![Real(0.0); 2]);
        (f.order().to_vec(), b)
    };
    let (order, x) = solve();
    assert!((x[0].0 - 2.0).abs() < 1e-15 && (x[1].0 - 1.0).abs() < 1e-15, "{x:?}");
    assert_eq!(solve(), (order, x));
}

/// Of the entries that may be pivoted on, the one that fills least comes first: the
/// head of an arrow is eliminated last.
#[test]
fn dynamic_pivots_fill_least() {
    let n = 5;
    let mut m = SparseMatrix::new(n);
    m.add(0, 0, Real(10.0));
    for i in 1..n {
        m.add(0, i, Real(1.0));
        m.add(i, 0, Real(1.0));
        m.add(i, i, Real(10.0));
    }
    let mut f = m.factorize_symbolic();
    assert!(f.refactor_dynamic(&m));
    assert!(f.order()[..3].iter().all(|c| *c != 0), "{:?}", f.order());
}
