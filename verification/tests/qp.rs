//! The quadratic-program solvers on double-precision floats.

use clarabel::algebra::CscMatrix;
use clarabel::solver::{
    DefaultSettings, DefaultSettingsBuilder, DefaultSolver, IPSolver, SolverStatus, SupportedConeT,
};
use misa_wbc::dense::Mat;
use misa_wbc::kernels::{
    Backend, Cone, Conic, ConicAnswer, ConicProblem, ConicReply, ConicStatus, Csc, DenseKernels,
};
use misa_wbc::scalar::{Arith, Scalar};
use misa_wbc::{Matrix, QpSolver, QpStatus};
use nalgebra::{DMatrix, DVector};

/// A double-precision scalar.
#[derive(Debug, Clone, Copy, PartialEq, PartialOrd)]
struct F(f64);

/// The operations as values: what the executable ones below compute.
impl Arith for F {
    fn zero_s() -> F {
        F::zero()
    }
    fn one_s() -> F {
        F::one()
    }
    fn nat_s(n: usize) -> F {
        F::of_count(n)
    }
    fn dec_s(m: i64, e: i32) -> F {
        F::dec(m, e)
    }
    fn add_s(self, o: F) -> F {
        self.plus(o)
    }
    fn sub_s(self, o: F) -> F {
        self.minus(o)
    }
    fn mul_s(self, o: F) -> F {
        self.times(o)
    }
    fn div_s(self, o: F) -> F {
        self.over(o)
    }
    fn neg_s(self) -> F {
        self.negated()
    }
    fn abs_s(self) -> F {
        self.magnitude()
    }
    fn sqrt_s(self) -> F {
        self.root()
    }
    fn hypot_s(self, o: F) -> F {
        self.hypotenuse(o)
    }
    fn max_s(self, o: F) -> F {
        self.larger(o)
    }
    fn min_s(self, o: F) -> F {
        self.smaller(o)
    }
    fn lt_s(self, o: F) -> bool {
        self.less_than(o)
    }
    fn le_s(self, o: F) -> bool {
        self.at_most(o)
    }
}

impl Scalar for F {
    fn zero() -> F {
        F(0.0)
    }
    fn one() -> F {
        F(1.0)
    }
    fn of_count(n: usize) -> F {
        F(n as f64)
    }
    fn dec(m: i64, e: i32) -> F {
        F(format!("{m}e{e}").parse().unwrap())
    }
    fn plus(self, o: F) -> F {
        F(self.0 + o.0)
    }
    fn minus(self, o: F) -> F {
        F(self.0 - o.0)
    }
    fn times(self, o: F) -> F {
        F(self.0 * o.0)
    }
    fn over(self, o: F) -> F {
        F(self.0 / o.0)
    }
    fn negated(self) -> F {
        F(-self.0)
    }
    fn magnitude(self) -> F {
        F(self.0.abs())
    }
    fn root(self) -> F {
        F(self.0.sqrt())
    }
    fn hypotenuse(self, o: F) -> F {
        F(self.0.hypot(o.0))
    }
    fn larger(self, o: F) -> F {
        F(self.0.max(o.0))
    }
    fn smaller(self, o: F) -> F {
        F(self.0.min(o.0))
    }
    fn less_than(self, o: F) -> bool {
        self.0 < o.0
    }
    fn at_most(self, o: F) -> bool {
        self.0 <= o.0
    }
}

fn m(a: &DMatrix<f64>) -> Matrix<F> {
    Matrix::tabulate(a.nrows(), a.ncols(), |i, j| F(a[(i, j)]))
}

fn dm(a: &Matrix<F>) -> DMatrix<f64> {
    DMatrix::from_fn(a.nrows(), a.ncols(), |i, j| a.at(i, j).0)
}

fn v(a: &DVector<f64>) -> Vec<F> {
    a.iter().map(|x| F(*x)).collect()
}

fn dv(a: &[F]) -> DVector<f64> {
    DVector::from_iterator(a.len(), a.iter().map(|x| x.0))
}

fn csc(a: &Csc<F>) -> CscMatrix<f64> {
    CscMatrix::new(
        a.rows,
        a.cols,
        a.col_ptr.clone(),
        a.row_idx.clone(),
        a.vals.iter().map(|x| x.0).collect(),
    )
}

/// The results of the kernels as values. These only name what the executable
/// kernels below return, and never run.
impl DenseKernels for F {
    fn cholesky_s(_a: Mat<F>) -> Option<Mat<F>> {
        unreachable!()
    }
    fn lu_solve_s(_a: Mat<F>, _b: Mat<F>) -> Option<Mat<F>> {
        unreachable!()
    }
    fn null_space_s(_a: Mat<F>) -> Mat<F> {
        unreachable!()
    }
    fn conic_s(_p: Conic<F>) -> ConicAnswer<F> {
        unreachable!()
    }
}

impl Backend for F {
    fn cholesky(a: &Matrix<F>) -> Option<Matrix<F>> {
        dm(a).cholesky().map(|c| m(&c.l()))
    }
    fn lu_solve(a: &Matrix<F>, b: &Matrix<F>) -> Option<Matrix<F>> {
        dm(a).lu().solve(&dm(b)).map(|x| m(&x))
    }
    fn null_space(a: &Matrix<F>) -> Matrix<F> {
        let n = a.ncols();
        let mut padded = DMatrix::zeros(a.nrows().max(n), n);
        padded.view_mut((0, 0), (a.nrows(), n)).copy_from(&dm(a));
        if n == 0 {
            return m(&DMatrix::zeros(0, 0));
        }
        let svd = padded.svd(false, true);
        let vt = svd.v_t.unwrap();
        let top = svd.singular_values.max();
        let free: Vec<usize> =
            (0..n).filter(|&i| svd.singular_values[i] <= 1e-9 * top.max(1e-300)).collect();
        m(&DMatrix::from_fn(n, free.len(), |i, j| vt[(free[j], i)]))
    }
    fn conic(p: &ConicProblem<F>) -> ConicReply<F> {
        let cones: Vec<SupportedConeT<f64>> = p
            .cones
            .iter()
            .map(|c| match c {
                Cone::Zero(k) => SupportedConeT::ZeroConeT(*k),
                Cone::Nonnegative(k) => SupportedConeT::NonnegativeConeT(*k),
            })
            .collect();
        let settings = DefaultSettingsBuilder::default()
            .max_iter(p.max_iter)
            .tol_gap_abs(p.tol_gap.0)
            .tol_gap_rel(p.tol_gap.0)
            .tol_feas(p.tol_feas.0)
            .verbose(false)
            .build()
            .unwrap_or_else(|_| DefaultSettings::default());
        let q: Vec<f64> = p.q.iter().map(|x| x.0).collect();
        let b: Vec<f64> = p.b.iter().map(|x| x.0).collect();
        let mut solver =
            DefaultSolver::new(&csc(&p.p), &q, &csc(&p.a), &b, &cones, settings).unwrap();
        solver.solve();
        let status = match solver.solution.status {
            SolverStatus::Solved => ConicStatus::Solved,
            SolverStatus::AlmostSolved => ConicStatus::AlmostSolved,
            SolverStatus::MaxIterations => ConicStatus::MaxIterations,
            SolverStatus::PrimalInfeasible => ConicStatus::PrimalInfeasible,
            SolverStatus::DualInfeasible => ConicStatus::DualInfeasible,
            SolverStatus::AlmostPrimalInfeasible => ConicStatus::AlmostPrimalInfeasible,
            SolverStatus::AlmostDualInfeasible => ConicStatus::AlmostDualInfeasible,
            _ => ConicStatus::Other,
        };
        ConicReply {
            status,
            x: solver.solution.x.iter().map(|x| F(*x)).collect(),
            z: solver.solution.z.iter().map(|x| F(*x)).collect(),
            iterations: solver.solution.iterations,
        }
    }
}

type QpWorkspace = misa_wbc::QpWorkspace<F>;

/// The configuration in floats.
struct QpConfig {
    solver: QpSolver,
    max_iters: usize,
    feasibility_tol: f64,
    optimality_tol: f64,
    prox_weight: f64,
}

impl Default for QpConfig {
    fn default() -> QpConfig {
        let d: misa_wbc::QpConfig<F> = misa_wbc::QpConfig::default();
        QpConfig {
            solver: d.solver,
            max_iters: d.max_iters,
            feasibility_tol: d.feasibility_tol.0,
            optimality_tol: d.optimality_tol.0,
            prox_weight: d.prox_weight.0,
        }
    }
}

impl QpConfig {
    fn lib(&self) -> misa_wbc::QpConfig<F> {
        misa_wbc::QpConfig {
            solver: self.solver,
            max_iters: self.max_iters,
            feasibility_tol: F(self.feasibility_tol),
            optimality_tol: F(self.optimality_tol),
            prox_weight: F(self.prox_weight),
        }
    }
}

/// The solution in floats.
struct QpSolution {
    x: DVector<f64>,
    objective: f64,
    lambda_eq: DVector<f64>,
    lambda_iq: DVector<f64>,
    status: QpStatus,
    iterations: usize,
}

fn floats(s: misa_wbc::QpSolution<F>) -> QpSolution {
    QpSolution {
        x: dv(&s.x),
        objective: s.objective.0,
        lambda_eq: dv(&s.lambda_eq),
        lambda_iq: dv(&s.lambda_iq),
        status: s.status,
        iterations: s.iterations,
    }
}

fn solve_qp(
    h: &DMatrix<f64>,
    c: &DVector<f64>,
    a_eq: Option<&DMatrix<f64>>,
    b_eq: Option<&DVector<f64>>,
    a_iq: Option<&DMatrix<f64>>,
    b_iq: Option<&DVector<f64>>,
    x0: Option<&DVector<f64>>,
    config: &QpConfig,
) -> QpSolution {
    floats(misa_wbc::solve_qp(
        &m(h),
        &v(c),
        a_eq.map(m).as_ref(),
        b_eq.map(v).as_ref(),
        a_iq.map(m).as_ref(),
        b_iq.map(v).as_ref(),
        x0.map(v).as_ref(),
        &config.lib(),
    ))
}

fn solve_qp_warm(
    h: &DMatrix<f64>,
    c: &DVector<f64>,
    a_eq: Option<&DMatrix<f64>>,
    b_eq: Option<&DVector<f64>>,
    a_iq: Option<&DMatrix<f64>>,
    b_iq: Option<&DVector<f64>>,
    x0: Option<&DVector<f64>>,
    config: &QpConfig,
    workspace: &mut QpWorkspace,
) -> QpSolution {
    floats(misa_wbc::solve_qp_warm(
        &m(h),
        &v(c),
        a_eq.map(m).as_ref(),
        b_eq.map(v).as_ref(),
        a_iq.map(m).as_ref(),
        b_iq.map(v).as_ref(),
        x0.map(v).as_ref(),
        &config.lib(),
        workspace,
    ))
}

/// Equal up to `eps`, absolutely or relatively to the larger magnitude at
/// machine precision.
fn rel_eq(a: f64, b: f64, eps: f64) {
    let gap = (a - b).abs();
    assert!(gap <= eps || gap <= a.abs().max(b.abs()) * f64::EPSILON, "{a} vs {b} (eps {eps})");
}

#[test]
fn unconstrained_minimum() {
    // min 0.5*(x1² + 2*x2²) - 3*x1 - x2
    // H = diag(1, 2), c = [-3, -1]
    // Solution: x = H^{-1} (-c) = [3, 0.5]
    let h = DMatrix::from_row_slice(2, 2, &[1.0, 0.0, 0.0, 2.0]);
    let c = DVector::from_vec(vec![-3.0, -1.0]);

    let sol = solve_qp(&h, &c, None, None, None, None, None, &QpConfig::default());
    assert_eq!(sol.status, QpStatus::Optimal);
    rel_eq(sol.x[0], 3.0, 1e-10);
    rel_eq(sol.x[1], 0.5, 1e-10);
}

#[test]
fn inequality_active_at_optimum() {
    // min 0.5*(x1-2)² + 0.5*(x2-2)²  s.t.  x1 ≤ 1, x2 ≤ 1
    // H = I, c = [-2, -2]
    // Unconstrained: (2,2).  Constrained: (1,1).
    let h = DMatrix::identity(2, 2);
    let c = DVector::from_vec(vec![-2.0, -2.0]);
    let a_iq = DMatrix::from_row_slice(2, 2, &[1.0, 0.0, 0.0, 1.0]);
    let b_iq = DVector::from_vec(vec![1.0, 1.0]);

    let sol = solve_qp(
        &h, &c, None, None,
        Some(&a_iq), Some(&b_iq), None, &QpConfig::default(),
    );
    assert_eq!(sol.status, QpStatus::Optimal);
    rel_eq(sol.x[0], 1.0, 1e-8);
    rel_eq(sol.x[1], 1.0, 1e-8);
}

#[test]
fn inequality_not_active() {
    // min 0.5*(x1² + x2²)  s.t.  x1 ≤ 5, x2 ≤ 5
    // Unconstrained min at (0,0) is already feasible.
    let h = DMatrix::identity(2, 2);
    let c = DVector::zeros(2);
    let a_iq = DMatrix::from_row_slice(2, 2, &[1.0, 0.0, 0.0, 1.0]);
    let b_iq = DVector::from_vec(vec![5.0, 5.0]);

    let sol = solve_qp(
        &h, &c, None, None,
        Some(&a_iq), Some(&b_iq), None, &QpConfig::default(),
    );
    assert_eq!(sol.status, QpStatus::Optimal);
    rel_eq(sol.x[0], 0.0, 1e-8);
    rel_eq(sol.x[1], 0.0, 1e-8);
}

#[test]
fn one_active_one_inactive() {
    // min 0.5*(x1-3)² + 0.5*(x2-0.5)²  s.t.  x1 ≤ 1, x2 ≤ 2
    // Unconstrained: (3, 0.5).  x1 ≤ 1 is active, x2 ≤ 2 is not.
    let h = DMatrix::identity(2, 2);
    let c = DVector::from_vec(vec![-3.0, -0.5]);
    let a_iq = DMatrix::from_row_slice(2, 2, &[1.0, 0.0, 0.0, 1.0]);
    let b_iq = DVector::from_vec(vec![1.0, 2.0]);

    let sol = solve_qp(
        &h, &c, None, None,
        Some(&a_iq), Some(&b_iq), None, &QpConfig::default(),
    );
    assert_eq!(sol.status, QpStatus::Optimal);
    rel_eq(sol.x[0], 1.0, 1e-8);
    rel_eq(sol.x[1], 0.5, 1e-8);
}

#[test]
fn box_constraints() {
    // min 0.5*(x1-5)² + 0.5*(x2+3)²  s.t.  -1 ≤ x ≤ 2
    // Unconstrained: (5, -3).  Box: (2, -1).
    let h = DMatrix::identity(2, 2);
    let c = DVector::from_vec(vec![-5.0, 3.0]);
    // x1 ≤ 2, x2 ≤ 2, -x1 ≤ 1, -x2 ≤ 1
    let a_iq = DMatrix::from_row_slice(4, 2, &[
        1.0,  0.0,
        0.0,  1.0,
        -1.0, 0.0,
        0.0, -1.0,
    ]);
    let b_iq = DVector::from_vec(vec![2.0, 2.0, 1.0, 1.0]);

    let sol = solve_qp(
        &h, &c, None, None,
        Some(&a_iq), Some(&b_iq), None, &QpConfig::default(),
    );
    assert_eq!(sol.status, QpStatus::Optimal);
    rel_eq(sol.x[0], 2.0, 1e-8);
    rel_eq(sol.x[1], -1.0, 1e-8);
}

#[test]
fn equality_only() {
    // min 0.5*(x1² + x2²)  s.t.  x1 + x2 = 1
    // Solution on the line x1+x2=1: closest to origin is (0.5, 0.5).
    let h = DMatrix::identity(2, 2);
    let c = DVector::zeros(2);
    let a_eq = DMatrix::from_row_slice(1, 2, &[1.0, 1.0]);
    let b_eq = DVector::from_element(1, 1.0);

    let sol = solve_qp(
        &h, &c,
        Some(&a_eq), Some(&b_eq),
        None, None, None, &QpConfig::default(),
    );
    assert_eq!(sol.status, QpStatus::Optimal);
    rel_eq(sol.x[0], 0.5, 1e-8);
    rel_eq(sol.x[1], 0.5, 1e-8);
}

#[test]
fn equality_and_inequality() {
    // min 0.5*(x1-3)² + 0.5*(x2-3)²  s.t.  x1 + x2 = 2, x1 ≥ 0, x2 ≥ 0
    // On the line x1+x2=2, closest to (3,3) is (1,1).
    // But with x1 ≥ 0, x2 ≥ 0 (not active), solution is still (1,1).
    let h = DMatrix::identity(2, 2);
    let c = DVector::from_vec(vec![-3.0, -3.0]);
    let a_eq = DMatrix::from_row_slice(1, 2, &[1.0, 1.0]);
    let b_eq = DVector::from_element(1, 2.0);
    // -x1 ≤ 0, -x2 ≤ 0
    let a_iq = DMatrix::from_row_slice(2, 2, &[-1.0, 0.0, 0.0, -1.0]);
    let b_iq = DVector::zeros(2);

    let sol = solve_qp(
        &h, &c,
        Some(&a_eq), Some(&b_eq),
        Some(&a_iq), Some(&b_iq),
        None,
        &QpConfig::default(),
    );
    assert_eq!(sol.status, QpStatus::Optimal);
    rel_eq(sol.x[0], 1.0, 1e-6);
    rel_eq(sol.x[1], 1.0, 1e-6);
}

#[test]
fn equality_and_active_inequality() {
    // min 0.5*(x1² + x2²)  s.t.  x1 + x2 = 2, x1 ≤ 0.5
    // On x1+x2=2 the unconstrained closest-to-origin is (1,1). But x1 ≤ 0.5
    // forces (0.5, 1.5).
    let h = DMatrix::identity(2, 2);
    let c = DVector::zeros(2);
    let a_eq = DMatrix::from_row_slice(1, 2, &[1.0, 1.0]);
    let b_eq = DVector::from_element(1, 2.0);
    let a_iq = DMatrix::from_row_slice(1, 2, &[1.0, 0.0]);
    let b_iq = DVector::from_element(1, 0.5);

    let sol = solve_qp(
        &h, &c,
        Some(&a_eq), Some(&b_eq),
        Some(&a_iq), Some(&b_iq),
        None,
        &QpConfig::default(),
    );
    assert_eq!(sol.status, QpStatus::Optimal);
    rel_eq(sol.x[0], 0.5, 1e-6);
    rel_eq(sol.x[1], 1.5, 1e-6);
}

#[test]
fn user_provided_x0() {
    // Same as box_constraints but with user-provided x0 = (0,0).
    let h = DMatrix::identity(2, 2);
    let c = DVector::from_vec(vec![-5.0, 3.0]);
    let a_iq = DMatrix::from_row_slice(4, 2, &[
        1.0, 0.0, 0.0, 1.0, -1.0, 0.0, 0.0, -1.0,
    ]);
    let b_iq = DVector::from_vec(vec![2.0, 2.0, 1.0, 1.0]);
    let x0 = DVector::from_vec(vec![0.0, 0.0]);

    let sol = solve_qp(
        &h, &c, None, None,
        Some(&a_iq), Some(&b_iq), Some(&x0), &QpConfig::default(),
    );
    assert_eq!(sol.status, QpStatus::Optimal);
    rel_eq(sol.x[0], 2.0, 1e-8);
    rel_eq(sol.x[1], -1.0, 1e-8);
}

#[test]
fn larger_problem() {
    // min 0.5 ||x||²  s.t.  Σx_i ≥ 5 and 0 ≤ x_i ≤ 3 for i=0..4
    // Closest to origin on Σx≥5 with box: each x_i = 1 (sum = 5).
    let n = 5;
    let h = DMatrix::identity(n, n);
    let c = DVector::zeros(n);

    // -Σx_i ≤ -5, x_i ≤ 3, -x_i ≤ 0
    let mut rows = Vec::new();
    // sum >= 5
    let mut sum_row = vec![0.0; n];
    for v in &mut sum_row {
        *v = -1.0;
    }
    rows.push((sum_row, -5.0));
    for i in 0..n {
        let mut row_upper = vec![0.0; n];
        row_upper[i] = 1.0;
        rows.push((row_upper, 3.0));
        let mut row_lower = vec![0.0; n];
        row_lower[i] = -1.0;
        rows.push((row_lower, 0.0));
    }

    let m = rows.len();
    let mut a_data = Vec::with_capacity(m * n);
    let mut b_data = Vec::with_capacity(m);
    for (r, b_val) in &rows {
        a_data.extend_from_slice(r);
        b_data.push(*b_val);
    }
    let a_iq = DMatrix::from_row_slice(m, n, &a_data);
    let b_iq = DVector::from_vec(b_data);

    let x0 = DVector::from_element(n, 1.0); // feasible start: sum=5
    let sol = solve_qp(
        &h, &c, None, None,
        Some(&a_iq), Some(&b_iq), Some(&x0), &QpConfig::default(),
    );
    assert_eq!(sol.status, QpStatus::Optimal);
    for i in 0..n {
        rel_eq(sol.x[i], 1.0, 1e-6);
    }
}

#[test]
fn objective_value_correct() {
    let h = DMatrix::identity(2, 2);
    let c = DVector::from_vec(vec![-2.0, -2.0]);
    let a_iq = DMatrix::from_row_slice(2, 2, &[1.0, 0.0, 0.0, 1.0]);
    let b_iq = DVector::from_vec(vec![1.0, 1.0]);

    let sol = solve_qp(
        &h, &c, None, None,
        Some(&a_iq), Some(&b_iq), None, &QpConfig::default(),
    );
    // x = (1,1), obj = 0.5*(1+1) + (-2-2) = 1 - 4 = -3
    rel_eq(sol.objective, -3.0, 1e-8);
}

#[test]
fn multipliers_positive_for_active_inequality() {
    // min 0.5*(x-2)²  s.t.  x ≤ 1
    // Active at x=1, multiplier = ∂f/∂b = 2-1 = 1
    let h = DMatrix::from_element(1, 1, 1.0);
    let c = DVector::from_element(1, -2.0);
    let a_iq = DMatrix::from_element(1, 1, 1.0);
    let b_iq = DVector::from_element(1, 1.0);

    let sol = solve_qp(
        &h, &c, None, None,
        Some(&a_iq), Some(&b_iq), None, &QpConfig::default(),
    );
    assert_eq!(sol.status, QpStatus::Optimal);
    rel_eq(sol.x[0], 1.0, 1e-10);
    assert!(sol.lambda_iq[0] > 0.0, "active inequality multiplier should be positive");
    rel_eq(sol.lambda_iq[0], 1.0, 1e-8);
}

#[test]
fn coupled_inequality_constraints() {
    // min 0.5*(x1² + x2²)  s.t.  x1 + x2 ≤ 1, x1 - x2 ≤ 1
    // Unconstrained: (0,0), which satisfies both → solution is (0,0).
    let h = DMatrix::identity(2, 2);
    let c = DVector::zeros(2);
    let a_iq = DMatrix::from_row_slice(2, 2, &[1.0, 1.0, 1.0, -1.0]);
    let b_iq = DVector::from_vec(vec![1.0, 1.0]);

    let sol = solve_qp(
        &h, &c, None, None,
        Some(&a_iq), Some(&b_iq), None, &QpConfig::default(),
    );
    assert_eq!(sol.status, QpStatus::Optimal);
    rel_eq(sol.x.norm(), 0.0, 1e-8);
}

#[test]
fn coupled_inequality_active() {
    // min 0.5*((x1-2)² + (x2-2)²)  s.t.  x1 + x2 ≤ 1
    // Unconstrained: (2,2), violates x1+x2≤1.
    // Constrained min on x1+x2=1 closest to (2,2): (0.5, 0.5).
    let h = DMatrix::identity(2, 2);
    let c = DVector::from_vec(vec![-2.0, -2.0]);
    let a_iq = DMatrix::from_row_slice(1, 2, &[1.0, 1.0]);
    let b_iq = DVector::from_element(1, 1.0);

    let sol = solve_qp(
        &h, &c, None, None,
        Some(&a_iq), Some(&b_iq), None, &QpConfig::default(),
    );
    assert_eq!(sol.status, QpStatus::Optimal);
    rel_eq(sol.x[0], 0.5, 1e-8);
    rel_eq(sol.x[1], 0.5, 1e-8);
}

#[test]
fn non_identity_hessian() {
    // min 0.5*(3*x1² + x2² + 2*x1*x2) - x1  s.t.  -1 ≤ x ≤ 1
    // H = [[3, 1], [1, 1]], c = [-1, 0]
    // Unconstrained: H^{-1}(-c) = [[1,-1],[-1,3]]/2 * [1,0] = [0.5, -0.5]
    let h = DMatrix::from_row_slice(2, 2, &[3.0, 1.0, 1.0, 1.0]);
    let c = DVector::from_vec(vec![-1.0, 0.0]);
    // box: x1 ≤ 1, x2 ≤ 1, -x1 ≤ 1, -x2 ≤ 1
    let a_iq = DMatrix::from_row_slice(4, 2, &[
        1.0, 0.0, 0.0, 1.0, -1.0, 0.0, 0.0, -1.0,
    ]);
    let b_iq = DVector::from_vec(vec![1.0, 1.0, 1.0, 1.0]);

    let sol = solve_qp(
        &h, &c, None, None,
        Some(&a_iq), Some(&b_iq), None, &QpConfig::default(),
    );
    assert_eq!(sol.status, QpStatus::Optimal);
    rel_eq(sol.x[0], 0.5, 1e-6);
    rel_eq(sol.x[1], -0.5, 1e-6);
}

// Cross-validation of the active-set method against Clarabel.

/// Helper: solve the same QP with both ActiveSet and Clarabel and compare.
fn cross_validate(
    h: &DMatrix<f64>,
    c: &DVector<f64>,
    a_eq: Option<&DMatrix<f64>>,
    b_eq: Option<&DVector<f64>>,
    a_iq: Option<&DMatrix<f64>>,
    b_iq: Option<&DVector<f64>>,
    x0: Option<&DVector<f64>>,
    tol: f64,
) {
    let cfg_as = QpConfig { solver: QpSolver::ActiveSet, ..Default::default() };
    let cfg_cl = QpConfig { solver: QpSolver::Clarabel, ..Default::default() };
    let sol_as = solve_qp(h, c, a_eq, b_eq, a_iq, b_iq, x0, &cfg_as);
    let sol_cl = solve_qp(h, c, a_eq, b_eq, a_iq, b_iq, None, &cfg_cl);
    assert_eq!(sol_as.status, QpStatus::Optimal, "ActiveSet not Optimal");
    assert_eq!(sol_cl.status, QpStatus::Optimal, "Clarabel not Optimal");
    rel_eq(sol_as.objective, sol_cl.objective, tol);
    for i in 0..sol_as.x.len() {
        rel_eq(sol_as.x[i], sol_cl.x[i], tol);
    }
}

#[test]
fn clarabel_unconstrained() {
    let h = DMatrix::from_row_slice(2, 2, &[1.0, 0.0, 0.0, 2.0]);
    let c = DVector::from_vec(vec![-3.0, -1.0]);
    cross_validate(&h, &c, None, None, None, None, None, 1e-6);
}

#[test]
fn clarabel_inequality_active() {
    let h = DMatrix::identity(2, 2);
    let c = DVector::from_vec(vec![-2.0, -2.0]);
    let a_iq = DMatrix::from_row_slice(2, 2, &[1.0, 0.0, 0.0, 1.0]);
    let b_iq = DVector::from_vec(vec![1.0, 1.0]);
    cross_validate(&h, &c, None, None, Some(&a_iq), Some(&b_iq), None, 1e-6);
}

#[test]
fn clarabel_equality_only() {
    let h = DMatrix::identity(2, 2);
    let c = DVector::zeros(2);
    let a_eq = DMatrix::from_row_slice(1, 2, &[1.0, 1.0]);
    let b_eq = DVector::from_element(1, 1.0);
    cross_validate(&h, &c, Some(&a_eq), Some(&b_eq), None, None, None, 1e-6);
}

#[test]
fn clarabel_equality_and_inequality() {
    let h = DMatrix::identity(2, 2);
    let c = DVector::zeros(2);
    let a_eq = DMatrix::from_row_slice(1, 2, &[1.0, 1.0]);
    let b_eq = DVector::from_element(1, 2.0);
    let a_iq = DMatrix::from_row_slice(1, 2, &[1.0, 0.0]);
    let b_iq = DVector::from_element(1, 0.5);
    cross_validate(
        &h, &c,
        Some(&a_eq), Some(&b_eq),
        Some(&a_iq), Some(&b_iq),
        None,
        1e-6,
    );
}

#[test]
fn clarabel_box_constraints() {
    let h = DMatrix::identity(2, 2);
    let c = DVector::from_vec(vec![-5.0, 3.0]);
    let a_iq = DMatrix::from_row_slice(4, 2, &[
        1.0, 0.0, 0.0, 1.0, -1.0, 0.0, 0.0, -1.0,
    ]);
    let b_iq = DVector::from_vec(vec![2.0, 2.0, 1.0, 1.0]);
    cross_validate(&h, &c, None, None, Some(&a_iq), Some(&b_iq), None, 1e-6);
}

#[test]
fn clarabel_larger_problem() {
    let n = 5;
    let h = DMatrix::identity(n, n);
    let c = DVector::zeros(n);
    let mut rows = Vec::new();
    let mut sum_row = vec![0.0; n];
    for v in &mut sum_row { *v = -1.0; }
    rows.push((sum_row, -5.0));
    for i in 0..n {
        let mut r_u = vec![0.0; n]; r_u[i] = 1.0;
        rows.push((r_u, 3.0));
        let mut r_l = vec![0.0; n]; r_l[i] = -1.0;
        rows.push((r_l, 0.0));
    }
    let m = rows.len();
    let mut a_data = Vec::with_capacity(m * n);
    let mut b_data = Vec::with_capacity(m);
    for (r, b_val) in &rows {
        a_data.extend_from_slice(r);
        b_data.push(*b_val);
    }
    let a_iq = DMatrix::from_row_slice(m, n, &a_data);
    let b_iq = DVector::from_vec(b_data);
    let x0 = DVector::from_element(n, 1.0); // feasible start: sum=5
    cross_validate(&h, &c, None, None, Some(&a_iq), Some(&b_iq), Some(&x0), 1e-5);
}

/// Proximal warm-start: a tiny prox term should not move the
/// optimum noticeably when the original problem is already strictly
/// convex (unique optimum). ρ = 1e-6 is small relative to H = I.
#[test]
fn prox_weight_preserves_strict_optimum() {
    // Same as `inequality_active_at_optimum` but with prox toward
    // the (incorrect) origin. The strict optimum (1, 1) is unaffected
    // up to O(ρ) bias.
    let h = DMatrix::identity(2, 2);
    let c = DVector::from_vec(vec![-2.0, -2.0]);
    let a_iq = DMatrix::from_row_slice(2, 2, &[1.0, 0.0, 0.0, 1.0]);
    let b_iq = DVector::from_vec(vec![1.0, 1.0]);
    let x0 = DVector::zeros(2);

    let cfg = QpConfig {
        prox_weight: 1e-6,
        ..QpConfig::default()
    };
    let sol = solve_qp(
        &h, &c, None, None,
        Some(&a_iq), Some(&b_iq), Some(&x0), &cfg,
    );
    assert_eq!(sol.status, QpStatus::Optimal);
    // Objective must report on the **original** cost (½‖x‖² − 2(x₁+x₂)).
    // At x=(1,1): 0.5*(1+1) − 2*(1+1) = 1 − 4 = −3.
    rel_eq(sol.objective, -3.0, 5e-6);
    rel_eq(sol.x[0], 1.0, 1e-4);
    rel_eq(sol.x[1], 1.0, 1e-4);
}

/// Proximal warm-start: in a degenerate problem with a wide null
/// space, the prox term should pull the optimum toward `x0`.
#[test]
fn prox_weight_picks_solution_near_x0_in_null_space() {
    // min 0.5*(x₁ + x₂ − 1)² (rank-1 H) — infinitely many optima
    // along the line x₁ + x₂ = 1. Without prox the solver could
    // pick anything on that line; with prox toward x0 = (0, 0)
    // the unique optimum is the closest point to origin: (0.5, 0.5).
    // We build H = aaᵀ where a = [1; 1].
    let h = DMatrix::from_row_slice(2, 2, &[1.0, 1.0, 1.0, 1.0]);
    let c = DVector::from_vec(vec![-1.0, -1.0]);
    let x0 = DVector::zeros(2);

    let cfg = QpConfig {
        prox_weight: 1e-3,
        ..QpConfig::default()
    };
    let sol = solve_qp(
        &h, &c, None, None, None, None, Some(&x0), &cfg,
    );
    assert_eq!(sol.status, QpStatus::Optimal);
    // Both coordinates should be close to 0.5 (the prox-anchored
    // closest point on the optimum line). Tolerance accounts for
    // ρ = 1e-3 finite bias.
    rel_eq(sol.x[0], 0.5, 1e-2);
    rel_eq(sol.x[1], 0.5, 1e-2);
}

/// Proximal warm-start: prox_weight = 0 must keep the solver fully
/// backward-compatible (no augmentation, x0 retains its existing
/// "initial point" semantics for ActiveSet).
#[test]
fn prox_weight_zero_is_a_noop() {
    let h = DMatrix::identity(2, 2);
    let c = DVector::from_vec(vec![-2.0, -2.0]);
    let a_iq = DMatrix::from_row_slice(2, 2, &[1.0, 0.0, 0.0, 1.0]);
    let b_iq = DVector::from_vec(vec![1.0, 1.0]);
    let x0 = DVector::zeros(2); // far from optimum but irrelevant

    let cfg = QpConfig::default();
    assert_eq!(cfg.prox_weight, 0.0);
    let sol_no_x0 = solve_qp(
        &h, &c, None, None,
        Some(&a_iq), Some(&b_iq), None, &cfg,
    );
    let sol_with_x0 = solve_qp(
        &h, &c, None, None,
        Some(&a_iq), Some(&b_iq), Some(&x0), &cfg,
    );
    // Both reach the same optimum (1, 1).
    rel_eq(sol_no_x0.x[0], sol_with_x0.x[0], 1e-6);
    rel_eq(sol_no_x0.x[1], sol_with_x0.x[1], 1e-6);
    rel_eq(sol_no_x0.objective, sol_with_x0.objective, 1e-6);
}

#[test]
fn clarabel_non_identity_hessian() {
    let h = DMatrix::from_row_slice(2, 2, &[3.0, 1.0, 1.0, 1.0]);
    let c = DVector::from_vec(vec![-1.0, 0.0]);
    let a_iq = DMatrix::from_row_slice(4, 2, &[
        1.0, 0.0, 0.0, 1.0, -1.0, 0.0, 0.0, -1.0,
    ]);
    let b_iq = DVector::from_vec(vec![1.0, 1.0, 1.0, 1.0]);
    cross_validate(&h, &c, None, None, Some(&a_iq), Some(&b_iq), None, 1e-6);
}

/// A tiny deterministic LCG for the randomised warm-start tests.
struct Lcg(u64);
impl Lcg {
    fn next_f64(&mut self) -> f64 {
        self.0 = self.0.wrapping_mul(6364136223846793005).wrapping_add(1442695040888963407);
        ((self.0 >> 11) as f64 / (1u64 << 53) as f64) * 2.0 - 1.0
    }
}

/// A well-conditioned random QP with equalities and inequalities.
fn random_qp(
    rng: &mut Lcg,
    n: usize,
    m_eq: usize,
    m_iq: usize,
) -> (DMatrix<f64>, DVector<f64>, DMatrix<f64>, DVector<f64>, DMatrix<f64>, DVector<f64>) {
    let a = DMatrix::from_fn(n, n, |_, _| rng.next_f64());
    let h = &a * a.transpose() + DMatrix::identity(n, n);
    let c = DVector::from_fn(n, |_, _| rng.next_f64());
    let ae = DMatrix::from_fn(m_eq, n, |_, _| rng.next_f64());
    let be = DVector::from_fn(m_eq, |_, _| rng.next_f64() * 0.3);
    let ai = DMatrix::from_fn(m_iq, n, |_, _| rng.next_f64());
    // Loose enough that a feasible region exists, tight enough that
    // several rows go active at the optimum.
    let bi = DVector::from_fn(m_iq, |_, _| rng.next_f64().abs() * 0.5 + 0.05);
    (h, c, ae, be, ai, bi)
}

/// KKT residuals of a returned solution — backend-independent
/// optimality certificate (stationarity, primal feasibility, dual
/// feasibility, complementary slackness).
fn assert_kkt(
    h: &DMatrix<f64>,
    c: &DVector<f64>,
    ae: &DMatrix<f64>,
    be: &DVector<f64>,
    ai: &DMatrix<f64>,
    bi: &DVector<f64>,
    sol: &QpSolution,
) {
    assert_eq!(sol.status, QpStatus::Optimal, "not optimal");
    let x = &sol.x;
    let stat = h * x + c + ae.transpose() * &sol.lambda_eq + ai.transpose() * &sol.lambda_iq;
    assert!(stat.norm() < 1e-5, "stationarity violated: {}", stat.norm());
    if ae.nrows() > 0 {
        assert!((ae * x - be).norm() < 1e-6, "eq violated");
    }
    for i in 0..ai.nrows() {
        let slack = bi[i] - (ai.row(i) * x)[0];
        assert!(slack > -1e-6, "iq {i} violated: slack {slack}");
        assert!(sol.lambda_iq[i] > -1e-6, "dual feasibility violated at {i}");
        assert!(
            sol.lambda_iq[i].abs() * slack.abs() < 1e-4,
            "complementary slackness violated at {i}"
        );
    }
}

#[test]
fn active_set_satisfies_kkt_on_random_problems() {
    // Hammers the incremental add / remove factor paths.
    let mut rng = Lcg(0xFEED);
    let cfg = QpConfig { solver: QpSolver::ActiveSet, ..Default::default() };
    for _ in 0..25 {
        let (h, c, ae, be, ai, bi) = random_qp(&mut rng, 10, 3, 12);
        let sol = solve_qp(&h, &c, Some(&ae), Some(&be), Some(&ai), Some(&bi), None, &cfg);
        assert_kkt(&h, &c, &ae, &be, &ai, &bi, &sol);
    }
}

#[test]
fn warm_resolve_of_identical_qp_is_one_iteration() {
    let mut rng = Lcg(0xBEEF);
    let (h, c, ae, be, ai, bi) = random_qp(&mut rng, 12, 3, 14);
    let cfg = QpConfig { solver: QpSolver::ActiveSet, ..Default::default() };
    let mut ws = QpWorkspace::new();

    let cold =
        solve_qp_warm(&h, &c, Some(&ae), Some(&be), Some(&ai), Some(&bi), None, &cfg, &mut ws);
    assert_eq!(cold.status, QpStatus::Optimal);
    assert!(cold.iterations > 0, "cold solve should iterate");

    let warm =
        solve_qp_warm(&h, &c, Some(&ae), Some(&be), Some(&ai), Some(&bi), None, &cfg, &mut ws);
    assert_eq!(warm.status, QpStatus::Optimal);
    assert!(
        warm.iterations <= 1,
        "warm re-solve took {} iterations (cold took {})",
        warm.iterations,
        cold.iterations
    );
    assert!((&warm.x - &cold.x).norm() < 1e-8, "warm x drifted");
}

#[test]
fn warm_workspace_tracks_a_perturbed_tick_sequence() {
    // A drifting QP sequence (b_eq and c move every tick) — warm
    // restarts must stay correct (KKT) and cheaper than cold.
    let mut rng = Lcg(0xCAFE);
    let (h, c0, ae, be0, ai, bi) = random_qp(&mut rng, 12, 3, 14);
    let cfg = QpConfig { solver: QpSolver::ActiveSet, ..Default::default() };
    let mut ws = QpWorkspace::new();
    let mut warm_iters = 0usize;
    let mut cold_iters = 0usize;

    for t in 0..20 {
        let phase = t as f64 * 0.15;
        let c = &c0 + DVector::from_fn(c0.len(), |i, _| 0.01 * (phase + i as f64).sin());
        let be = &be0 + DVector::from_fn(be0.len(), |i, _| 0.005 * (phase * 1.3 + i as f64).cos());

        let warm = solve_qp_warm(&h, &c, Some(&ae), Some(&be), Some(&ai), Some(&bi), None, &cfg, &mut ws);
        assert_kkt(&h, &c, &ae, &be, &ai, &bi, &warm);
        warm_iters += warm.iterations;

        let cold = solve_qp(&h, &c, Some(&ae), Some(&be), Some(&ai), Some(&bi), None, &cfg);
        cold_iters += cold.iterations;
        assert!((&warm.x - &cold.x).norm() < 1e-6, "tick {t}: warm and cold disagree");
    }
    assert!(
        warm_iters < cold_iters,
        "warm restarts should beat cold starts: {warm_iters} vs {cold_iters}"
    );
}

/// The HoQp-shaped failure mode: H = AᵀA + tiny·I with A rank-
/// deficient (κ ≈ 1e8) used to crawl into MaxIterations through
/// microscopic clipped steps. The conditional ridge + KKT polish
/// must solve it in a handful of iterations AND return the
/// unregularised optimum (verified against the KKT conditions of
/// the ORIGINAL problem).
#[test]
fn ill_conditioned_hessian_is_ridged_and_polished() {
    let n = 42;
    for rows in [6usize, 15] {
        let a = DMatrix::from_fn(rows, n, |i, j| ((i * 13 + j * 7) as f64 * 0.37).sin());
        let h = a.transpose() * &a + DMatrix::identity(n, n) * 1e-8;
        let b = DVector::from_fn(rows, |i, _| ((i as f64) * 0.9).cos());
        let c = -(a.transpose() * &b);
        let d = DMatrix::from_fn(44, n, |i, j| ((i * 5 + j * 3) as f64 * 0.23).cos());
        let f = DVector::from_fn(44, |i, _| 0.5 + 0.1 * ((i as f64) * 0.7).sin().abs());
        let cfg = QpConfig { solver: QpSolver::ActiveSet, ..Default::default() };

        let sol = solve_qp(&h, &c, None, None, Some(&d), Some(&f), None, &cfg);
        assert_eq!(sol.status, QpStatus::Optimal, "rows={rows}: crawled");
        assert!(sol.iterations < 50, "rows={rows}: {} iterations", sol.iterations);
        // KKT of the ORIGINAL (unridged) problem.
        let stat = &h * &sol.x + &c + d.transpose() * &sol.lambda_iq;
        assert!(stat.norm() < 1e-5, "rows={rows}: stationarity {}", stat.norm());
        for i in 0..44 {
            let slack = f[i] - (d.row(i) * &sol.x)[0];
            assert!(slack > -1e-6, "rows={rows}: iq {i} violated");
            assert!(sol.lambda_iq[i] > -1e-6, "rows={rows}: dual infeasible at {i}");
        }
    }
}


#[test]
fn ipm_satisfies_kkt_on_random_problems() {
    let mut rng = Lcg(0xC0FFEE);
    let cfg = QpConfig { solver: QpSolver::Ipm, ..Default::default() };
    for _ in 0..25 {
        let (h, c, ae, be, ai, bi) = random_qp(&mut rng, 10, 3, 12);
        let sol = solve_qp(&h, &c, Some(&ae), Some(&be), Some(&ai), Some(&bi), None, &cfg);
        assert_kkt(&h, &c, &ae, &be, &ai, &bi, &sol);
    }
}

#[test]
fn ipm_agrees_with_active_set_on_full_rank_problems() {
    // Full rank ⇒ unique optimum, so the two independently-derived
    // methods (barrier path-following vs active-set) must land on
    // the same x, not just the same objective.
    let mut rng = Lcg(0xFACADE);
    let ipm_cfg = QpConfig { solver: QpSolver::Ipm, ..Default::default() };
    let as_cfg = QpConfig { solver: QpSolver::ActiveSet, ..Default::default() };
    for _ in 0..15 {
        let n = 10;
        let a = DMatrix::from_fn(n, n, |_, _| rng.next_f64());
        let h = a.transpose() * &a + DMatrix::identity(n, n) * 0.5;
        let c = DVector::from_fn(n, |_, _| rng.next_f64());
        let d = DMatrix::from_fn(2 * n, n, |_, _| rng.next_f64());
        let f = DVector::from_fn(2 * n, |_, _| rng.next_f64().abs() * 0.5 + 0.1);

        let ipm = solve_qp(&h, &c, None, None, Some(&d), Some(&f), None, &ipm_cfg);
        let act = solve_qp(&h, &c, None, None, Some(&d), Some(&f), None, &as_cfg);
        assert_eq!(ipm.status, QpStatus::Optimal);
        assert_eq!(act.status, QpStatus::Optimal);
        assert!(
            (&ipm.x - &act.x).norm() < 1e-4,
            "ipm/active-set disagree: {:?} vs {:?}",
            ipm.x,
            act.x
        );
    }
}

#[test]
fn ipm_solves_equality_only_in_one_newton_step() {
    // No inequalities: the KKT system is linear, so a single exact
    // Newton step (the m_iq == 0 fast path) must already be optimal.
    let a = DMatrix::from_row_slice(1, 2, &[1.0, 1.0]);
    let b = DVector::from_vec(vec![1.0]);
    let h = DMatrix::identity(2, 2);
    let c = DVector::zeros(2);
    let cfg = QpConfig { solver: QpSolver::Ipm, ..Default::default() };
    let sol = solve_qp(&h, &c, Some(&a), Some(&b), None, None, None, &cfg);
    assert_eq!(sol.status, QpStatus::Optimal);
    // One Newton step to solve, one more loop entry to confirm
    // convergence against the (now-zero) residual.
    assert_eq!(sol.iterations, 2);
    assert!((sol.x[0] - 0.5).abs() < 1e-8 && (sol.x[1] - 0.5).abs() < 1e-8);
}

#[test]
fn ipm_respects_max_iters_on_an_unreachable_tolerance() {
    // A trivially-solvable QP but zero iteration budget must report
    // MaxIterations rather than silently returning x = 0.
    let h = DMatrix::identity(2, 2);
    let c = DVector::from_vec(vec![-1.0, -1.0]);
    let d = DMatrix::from_row_slice(1, 2, &[1.0, 1.0]);
    let f = DVector::from_vec(vec![1.0]);
    let cfg = QpConfig { solver: QpSolver::Ipm, max_iters: 0, ..Default::default() };
    let sol = solve_qp(&h, &c, None, None, Some(&d), Some(&f), None, &cfg);
    assert_eq!(sol.status, QpStatus::MaxIterations);
}


#[test]
fn admm_satisfies_kkt_on_random_problems() {
    let mut rng = Lcg(0xADD3D);
    let cfg = QpConfig { solver: QpSolver::Admm, max_iters: 5000, ..Default::default() };
    for _ in 0..25 {
        let (h, c, ae, be, ai, bi) = random_qp(&mut rng, 10, 3, 12);
        let sol = solve_qp(&h, &c, Some(&ae), Some(&be), Some(&ai), Some(&bi), None, &cfg);
        assert_kkt(&h, &c, &ae, &be, &ai, &bi, &sol);
    }
}

#[test]
fn admm_agrees_with_active_set_on_full_rank_problems() {
    // Full rank ⇒ unique optimum. ADMM's linear convergence needs a
    // generous iteration budget to reach the same tight tolerance
    // active-set hits in a handful of steps — this is the expected
    // ADMM/active-set trade-off (see solve_qp_admm's docs), not a
    // bug, so the budget here is set accordingly rather than tuned
    // down to "prove" a fast answer.
    let mut rng = Lcg(0xFACADE);
    let admm_cfg = QpConfig { solver: QpSolver::Admm, max_iters: 5000, ..Default::default() };
    let as_cfg = QpConfig { solver: QpSolver::ActiveSet, ..Default::default() };
    for _ in 0..15 {
        let n = 10;
        let a = DMatrix::from_fn(n, n, |_, _| rng.next_f64());
        let h = a.transpose() * &a + DMatrix::identity(n, n) * 0.5;
        let c = DVector::from_fn(n, |_, _| rng.next_f64());
        let d = DMatrix::from_fn(2 * n, n, |_, _| rng.next_f64());
        let f = DVector::from_fn(2 * n, |_, _| rng.next_f64().abs() * 0.5 + 0.1);

        let admm = solve_qp(&h, &c, None, None, Some(&d), Some(&f), None, &admm_cfg);
        let act = solve_qp(&h, &c, None, None, Some(&d), Some(&f), None, &as_cfg);
        assert_eq!(admm.status, QpStatus::Optimal);
        assert_eq!(act.status, QpStatus::Optimal);
        assert!(
            (&admm.x - &act.x).norm() < 1e-4,
            "admm/active-set disagree: {:?} vs {:?}",
            admm.x,
            act.x
        );
    }
}

#[test]
fn admm_handles_equality_only_problems() {
    // No inequalities (m_iq = 0): A = A_eq only, l = u = b_eq — the
    // box projection degenerates to the identity on those rows.
    let a = DMatrix::from_row_slice(1, 2, &[1.0, 1.0]);
    let b = DVector::from_vec(vec![1.0]);
    let h = DMatrix::identity(2, 2);
    let c = DVector::zeros(2);
    let cfg = QpConfig { solver: QpSolver::Admm, max_iters: 2000, ..Default::default() };
    let sol = solve_qp(&h, &c, Some(&a), Some(&b), None, None, None, &cfg);
    assert_eq!(sol.status, QpStatus::Optimal);
    assert!((sol.x[0] - 0.5).abs() < 1e-6 && (sol.x[1] - 0.5).abs() < 1e-6);
}

#[test]
fn admm_handles_unconstrained_problems() {
    // No constraints at all (m = 0): the fast path x = -H⁻¹c.
    let h = DMatrix::from_row_slice(2, 2, &[2.0, 0.0, 0.0, 2.0]);
    let c = DVector::from_vec(vec![-4.0, -6.0]);
    let cfg = QpConfig { solver: QpSolver::Admm, ..Default::default() };
    let sol = solve_qp(&h, &c, None, None, None, None, None, &cfg);
    assert_eq!(sol.status, QpStatus::Optimal);
    assert_eq!(sol.iterations, 0);
    assert!((sol.x[0] - 2.0).abs() < 1e-10 && (sol.x[1] - 3.0).abs() < 1e-10);
}

#[test]
fn admm_adaptive_rho_converges_at_default_max_iters() {
    // The exact problem that needed ~770 fixed-ρ iterations (see
    // solve_qp_admm's docs) and used to exceed the crate default
    // max_iters=500 — with adaptive ρ retuning it reaches Optimal
    // well inside the default budget, and agrees with active-set.
    let mut rng = Lcg(0xFACADE);
    let n = 10;
    let a = DMatrix::from_fn(n, n, |_, _| rng.next_f64());
    let h = a.transpose() * &a + DMatrix::identity(n, n) * 0.5;
    let c = DVector::from_fn(n, |_, _| rng.next_f64());
    let d = DMatrix::from_fn(2 * n, n, |_, _| rng.next_f64());
    let f = DVector::from_fn(2 * n, |_, _| rng.next_f64().abs() * 0.5 + 0.1);

    let cfg = QpConfig { solver: QpSolver::Admm, ..Default::default() };
    let admm = solve_qp(&h, &c, None, None, Some(&d), Some(&f), None, &cfg);
    assert_eq!(admm.status, QpStatus::Optimal, "adaptive ρ should converge in-budget");

    let as_cfg = QpConfig { solver: QpSolver::ActiveSet, ..Default::default() };
    let act = solve_qp(&h, &c, None, None, Some(&d), Some(&f), None, &as_cfg);
    assert!(
        (&admm.x - &act.x).norm() < 1e-4,
        "admm/active-set disagree: {}",
        (&admm.x - &act.x).norm()
    );
}

#[test]
fn admm_reports_max_iterations_without_diverging() {
    // A genuinely tiny iteration budget must still report
    // MaxIterations honestly (not silently return an unconverged
    // x as Optimal), while the iterate stays in the right
    // neighbourhood rather than blowing up — ADMM degrades
    // gracefully even when cut off early.
    let mut rng = Lcg(0xFACADE);
    let n = 10;
    let a = DMatrix::from_fn(n, n, |_, _| rng.next_f64());
    let h = a.transpose() * &a + DMatrix::identity(n, n) * 0.5;
    let c = DVector::from_fn(n, |_, _| rng.next_f64());
    let d = DMatrix::from_fn(2 * n, n, |_, _| rng.next_f64());
    let f = DVector::from_fn(2 * n, |_, _| rng.next_f64().abs() * 0.5 + 0.1);

    let cfg = QpConfig { solver: QpSolver::Admm, max_iters: 5, ..Default::default() };
    let admm = solve_qp(&h, &c, None, None, Some(&d), Some(&f), None, &cfg);
    assert_eq!(admm.status, QpStatus::MaxIterations);
    assert!(admm.x.iter().all(|v| v.is_finite()), "iterate must not blow up: {:?}", admm.x);

    let as_cfg = QpConfig { solver: QpSolver::ActiveSet, ..Default::default() };
    let act = solve_qp(&h, &c, None, None, Some(&d), Some(&f), None, &as_cfg);
    assert!(
        (&admm.x - &act.x).norm() < 5.0,
        "even a 5-iteration ADMM run should be in the right neighbourhood: {}",
        (&admm.x - &act.x).norm()
    );
}

#[test]
fn admm_adaptive_rho_speeds_up_the_ill_scaled_wbc_problem() {
    // The Go2-scale, mixed-weight problem that needed ~2000 fixed-ρ
    // iterations/tick (measured in qp_warm_bench without adaptive
    // ρ) must now converge well inside the crate default max_iters
    // (500) thanks to retuning away from the badly-guessed ρ=10.
    let n = 42;
    let weights = [1.0_f64, 0.1, 1e-3];
    let mut h = DMatrix::<f64>::identity(n, n) * 1e-8;
    let mut c = DVector::zeros(n);
    for (k, &w) in weights.iter().enumerate() {
        let rows = 6 + k * 3;
        let a = DMatrix::from_fn(rows, n, |i, j| ((i * (7 + k) + j * (3 + k)) as f64 * 0.31).sin());
        let b = DVector::from_fn(rows, |i, _| ((i as f64) * 0.8).cos() * 100.0);
        h += w * a.transpose() * &a;
        c -= w * a.transpose() * &b;
    }
    let d = DMatrix::from_fn(44, n, |i, j| ((i * 5 + j * 3) as f64 * 0.23).cos());
    let f = DVector::from_fn(44, |i, _| 0.5 + 0.1 * ((i as f64) * 0.7).sin().abs());

    let cfg = QpConfig { solver: QpSolver::Admm, ..Default::default() };
    let sol = solve_qp(&h, &c, None, None, Some(&d), Some(&f), None, &cfg);
    assert_eq!(sol.status, QpStatus::Optimal, "adaptive ρ should tame the ill-scaled problem");
    assert!(sol.iterations < 500, "took {} iterations", sol.iterations);
}
