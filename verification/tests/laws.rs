//! What the library promises as a whole, on concrete values in
//! double-precision floats.

use clarabel::algebra::CscMatrix;
use clarabel::solver::{
    DefaultSettings, DefaultSettingsBuilder, DefaultSolver, IPSolver, SolverStatus, SupportedConeT,
};
use misa_wbc::contact::{distribute_contact_forces, ContactError};
use misa_wbc::dense::{amax, least, peak, vmin, Mat};
use misa_wbc::factor::ActiveFactor;
use misa_wbc::kernels::{
    Backend, Cone, Conic, ConicAnswer, ConicProblem, ConicReply, ConicStatus, Csc, DenseKernels,
};
use misa_wbc::scalar::{Arith, Scalar};
use misa_wbc::tasks::JointLimitCbf;
use misa_wbc::{
    solve, solve_qp, solve_qp_warm, solve_warm, tasks, Dynamics, Formulation, HoQp, HqpStrategy,
    LevelReport, Matrix, QpConfig, QpSolver, QpStatus, QpWorkspace, Report, SolveConfig,
    SolveStatus, Solver, Stack, Task, TaskReport, VarLayout, WarmStart, WbcError,
};
use nalgebra::{DMatrix, DVector};

/// A double-precision scalar.
#[derive(Debug, Clone, Copy, PartialEq, PartialOrd)]
struct F(f64);

/// The operations as values: what the executable ones below compute.
impl Arith for F {
    fn zero_s() -> F {
        F::zero()
    }
    fn one_s() -> F {
        F::one()
    }
    fn nat_s(n: usize) -> F {
        F::of_count(n)
    }
    fn dec_s(m: i64, e: i32) -> F {
        F::dec(m, e)
    }
    fn add_s(self, o: F) -> F {
        self.plus(o)
    }
    fn sub_s(self, o: F) -> F {
        self.minus(o)
    }
    fn mul_s(self, o: F) -> F {
        self.times(o)
    }
    fn div_s(self, o: F) -> F {
        self.over(o)
    }
    fn neg_s(self) -> F {
        self.negated()
    }
    fn abs_s(self) -> F {
        self.magnitude()
    }
    fn sqrt_s(self) -> F {
        self.root()
    }
    fn hypot_s(self, o: F) -> F {
        self.hypotenuse(o)
    }
    fn max_s(self, o: F) -> F {
        self.larger(o)
    }
    fn min_s(self, o: F) -> F {
        self.smaller(o)
    }
    fn lt_s(self, o: F) -> bool {
        self.less_than(o)
    }
    fn le_s(self, o: F) -> bool {
        self.at_most(o)
    }
}

impl Scalar for F {
    fn zero() -> F {
        F(0.0)
    }
    fn one() -> F {
        F(1.0)
    }
    fn of_count(n: usize) -> F {
        F(n as f64)
    }
    fn dec(m: i64, e: i32) -> F {
        F(format!("{m}e{e}").parse().unwrap())
    }
    fn plus(self, o: F) -> F {
        F(self.0 + o.0)
    }
    fn minus(self, o: F) -> F {
        F(self.0 - o.0)
    }
    fn times(self, o: F) -> F {
        F(self.0 * o.0)
    }
    fn over(self, o: F) -> F {
        F(self.0 / o.0)
    }
    fn negated(self) -> F {
        F(-self.0)
    }
    fn magnitude(self) -> F {
        F(self.0.abs())
    }
    fn root(self) -> F {
        F(self.0.sqrt())
    }
    fn hypotenuse(self, o: F) -> F {
        F(self.0.hypot(o.0))
    }
    fn larger(self, o: F) -> F {
        F(self.0.max(o.0))
    }
    fn smaller(self, o: F) -> F {
        F(self.0.min(o.0))
    }
    fn less_than(self, o: F) -> bool {
        self.0 < o.0
    }
    fn at_most(self, o: F) -> bool {
        self.0 <= o.0
    }
}

fn m(a: &DMatrix<f64>) -> Matrix<F> {
    Matrix::tabulate(a.nrows(), a.ncols(), |i, j| F(a[(i, j)]))
}

fn dm(a: &Matrix<F>) -> DMatrix<f64> {
    DMatrix::from_fn(a.nrows(), a.ncols(), |i, j| a.at(i, j).0)
}

fn v(a: &DVector<f64>) -> Vec<F> {
    a.iter().map(|x| F(*x)).collect()
}

fn dv(a: &[F]) -> DVector<f64> {
    DVector::from_iterator(a.len(), a.iter().map(|x| x.0))
}

fn csc(a: &Csc<F>) -> CscMatrix<f64> {
    CscMatrix::new(
        a.rows,
        a.cols,
        a.col_ptr.clone(),
        a.row_idx.clone(),
        a.vals.iter().map(|x| x.0).collect(),
    )
}

/// The results of the kernels as values. These only name what the executable
/// kernels below return, and never run.
impl DenseKernels for F {
    fn cholesky_s(_a: Mat<F>) -> Option<Mat<F>> {
        unreachable!()
    }
    fn lu_solve_s(_a: Mat<F>, _b: Mat<F>) -> Option<Mat<F>> {
        unreachable!()
    }
    fn null_space_s(_a: Mat<F>) -> Mat<F> {
        unreachable!()
    }
    fn conic_s(_p: Conic<F>) -> ConicAnswer<F> {
        unreachable!()
    }
}

impl Backend for F {
    fn cholesky(a: &Matrix<F>) -> Option<Matrix<F>> {
        dm(a).cholesky().map(|c| m(&c.l()))
    }
    fn lu_solve(a: &Matrix<F>, b: &Matrix<F>) -> Option<Matrix<F>> {
        dm(a).lu().solve(&dm(b)).map(|x| m(&x))
    }
    fn null_space(a: &Matrix<F>) -> Matrix<F> {
        let n = a.ncols();
        let mut padded = DMatrix::zeros(a.nrows().max(n), n);
        padded.view_mut((0, 0), (a.nrows(), n)).copy_from(&dm(a));
        if n == 0 {
            return m(&DMatrix::zeros(0, 0));
        }
        let svd = padded.svd(false, true);
        let vt = svd.v_t.unwrap();
        let top = svd.singular_values.max();
        let free: Vec<usize> =
            (0..n).filter(|&i| svd.singular_values[i] <= 1e-9 * top.max(1e-300)).collect();
        m(&DMatrix::from_fn(n, free.len(), |i, j| vt[(free[j], i)]))
    }
    fn conic(p: &ConicProblem<F>) -> ConicReply<F> {
        let cones: Vec<SupportedConeT<f64>> = p
            .cones
            .iter()
            .map(|c| match c {
                Cone::Zero(k) => SupportedConeT::ZeroConeT(*k),
                Cone::Nonnegative(k) => SupportedConeT::NonnegativeConeT(*k),
            })
            .collect();
        let settings = DefaultSettingsBuilder::default()
            .max_iter(p.max_iter)
            .tol_gap_abs(p.tol_gap.0)
            .tol_gap_rel(p.tol_gap.0)
            .tol_feas(p.tol_feas.0)
            .verbose(false)
            .build()
            .unwrap_or_else(|_| DefaultSettings::default());
        let q: Vec<f64> = p.q.iter().map(|x| x.0).collect();
        let b: Vec<f64> = p.b.iter().map(|x| x.0).collect();
        let mut solver =
            DefaultSolver::new(&csc(&p.p), &q, &csc(&p.a), &b, &cones, settings).unwrap();
        solver.solve();
        let status = match solver.solution.status {
            SolverStatus::Solved => ConicStatus::Solved,
            SolverStatus::AlmostSolved => ConicStatus::AlmostSolved,
            SolverStatus::MaxIterations => ConicStatus::MaxIterations,
            SolverStatus::PrimalInfeasible => ConicStatus::PrimalInfeasible,
            SolverStatus::DualInfeasible => ConicStatus::DualInfeasible,
            SolverStatus::AlmostPrimalInfeasible => ConicStatus::AlmostPrimalInfeasible,
            SolverStatus::AlmostDualInfeasible => ConicStatus::AlmostDualInfeasible,
            _ => ConicStatus::Other,
        };
        ConicReply {
            status,
            x: solver.solution.x.iter().map(|x| F(*x)).collect(),
            z: solver.solution.z.iter().map(|x| F(*x)).collect(),
            iterations: solver.solution.iterations,
        }
    }
}

fn fv(a: &[f64]) -> Vec<F> {
    a.iter().map(|x| F(*x)).collect()
}

fn rows(r: usize, c: usize, data: &[f64]) -> Matrix<F> {
    m(&DMatrix::from_row_slice(r, c, data))
}

fn qp_cfg(solver: QpSolver) -> QpConfig<F> {
    QpConfig { solver, max_iters: 5000, ..QpConfig::default() }
}

const ALL: [QpSolver; 4] =
    [QpSolver::ActiveSet, QpSolver::Clarabel, QpSolver::Ipm, QpSolver::Admm];

/// `A x = b` and `D x <= f` at one level.
fn eq(a: &[f64], b: f64) -> Task<F> {
    Task::equality(rows(1, a.len(), a), fv(&[b]))
}

fn le(d: &[f64], f: f64) -> Task<F> {
    Task::inequality(rows(1, d.len(), d), fv(&[f]))
}

fn near(a: &[F], b: &[f64], tol: f64) -> bool {
    a.len() == b.len() && a.iter().zip(b).all(|(x, y)| (x.0 - y).abs() < tol)
}

// Quadratic programs.

/// A small problem with one equality, one tight and one slack inequality.
fn sample() -> (DMatrix<f64>, DVector<f64>, DMatrix<f64>, DVector<f64>, DMatrix<f64>, DVector<f64>)
{
    (
        DMatrix::from_row_slice(3, 3, &[4.0, 1.0, 0.0, 1.0, 3.0, 0.5, 0.0, 0.5, 2.0]),
        DVector::from_vec(vec![-8.0, -3.0, -3.0]),
        DMatrix::from_row_slice(1, 3, &[1.0, 1.0, 1.0]),
        DVector::from_vec(vec![3.0]),
        DMatrix::from_row_slice(2, 3, &[1.0, 0.0, 0.0, 0.0, 1.0, 0.0]),
        DVector::from_vec(vec![1.0, 50.0]),
    )
}

#[test]
fn optimal_answers_meet_the_optimality_conditions() {
    let (h, c, ae, be, ai, bi) = sample();
    for solver in ALL {
        let s = solve_qp(
            &m(&h),
            &v(&c),
            Some(&m(&ae)),
            Some(&v(&be)),
            Some(&m(&ai)),
            Some(&v(&bi)),
            None,
            &qp_cfg(solver),
        );
        assert_eq!(s.status, QpStatus::Optimal, "{solver:?}");
        let (x, le, li) = (dv(&s.x), dv(&s.lambda_eq), dv(&s.lambda_iq));
        let lagrangian = &h * &x + &c + ae.transpose() * &le + ai.transpose() * &li;
        assert!(lagrangian.norm() < 1e-5, "{solver:?}: {lagrangian}");
        assert!((&ae * &x - &be).norm() < 1e-6, "{solver:?}");
        let slack = &bi - &ai * &x;
        assert!(slack.min() > -1e-6, "{solver:?}");
        assert!(li.min() > -1e-6, "{solver:?}");
        assert!(slack.component_mul(&li).amax() < 1e-5, "{solver:?}");
        let cost = 0.5 * x.dot(&(&h * &x)) + c.dot(&x);
        assert!((s.objective.0 - cost).abs() < 1e-9, "{solver:?}");
        assert!(s.iterations <= 5000, "{solver:?}");
    }
}

#[test]
fn an_optimum_is_no_worse_than_other_feasible_points() {
    let (h, c, ae, be, ai, bi) = sample();
    let s = solve_qp(
        &m(&h),
        &v(&c),
        Some(&m(&ae)),
        Some(&v(&be)),
        Some(&m(&ai)),
        Some(&v(&bi)),
        None,
        &qp_cfg(QpSolver::ActiveSet),
    );
    for (p, q) in [(0.0, 0.0), (1.0, 1.0), (-2.0, 3.0), (0.5, 2.5), (1.0, 0.0)] {
        let y = DVector::from_vec(vec![p, q, 3.0 - p - q]);
        let cost = 0.5 * y.dot(&(&h * &y)) + c.dot(&y);
        assert!(s.objective.0 <= cost + 1e-7);
    }
}

#[test]
fn the_proximal_cost_differs_by_a_constant() {
    // With the pull the optimum is that of H + w I and c - w x0.
    let (h, c) = (rows(2, 2, &[2.0, 0.0, 0.0, 4.0]), fv(&[-2.0, -4.0]));
    let x0 = fv(&[3.0, -1.0]);
    for solver in ALL {
        let cfg = QpConfig { prox_weight: F(2.0), ..qp_cfg(solver) };
        let s = solve_qp(&h, &c, None, None, None, None, Some(&x0), &cfg);
        assert!(near(&s.x, &[8.0 / 4.0, 2.0 / 6.0], 1e-5), "{solver:?}");
        let x = dv(&s.x);
        let stated = x[0] * x[0] + 2.0 * x[1] * x[1] - 2.0 * x[0] - 4.0 * x[1];
        assert!((s.objective.0 - stated).abs() < 1e-9, "{solver:?}");
        // Without a point there is nothing to be pulled to.
        let free = solve_qp(&h, &c, None, None, None, None, None, &cfg);
        assert!(near(&free.x, &[1.0, 1.0], 1e-5), "{solver:?}");
    }
}

#[test]
fn only_the_active_set_method_uses_a_workspace() {
    let (h, c, ae, be, ai, bi) = sample();
    for solver in ALL {
        let mut ws = QpWorkspace::new();
        let mut go = || {
            solve_qp_warm(
                &m(&h),
                &v(&c),
                Some(&m(&ae)),
                Some(&v(&be)),
                Some(&m(&ai)),
                Some(&v(&bi)),
                None,
                &qp_cfg(solver),
                &mut ws,
            )
        };
        let (first, second) = (go(), go());
        if solver == QpSolver::ActiveSet {
            assert!(first.iterations > 0);
            assert_eq!(second.iterations, 0);
        } else {
            assert_eq!(second.iterations, first.iterations, "{solver:?}");
            assert_eq!(second.x, first.x, "{solver:?}");
        }
    }
}

#[test]
fn an_ill_conditioned_hessian_is_polished() {
    // Pivots that spread over six decades are ridged; the polish restores the
    // exact optimum.
    let h = rows(2, 2, &[1.0, 0.0, 0.0, 1e-12]);
    let s = solve_qp(
        &h,
        &fv(&[-1.0, -1e-12]),
        None,
        None,
        None,
        None,
        None,
        &qp_cfg(QpSolver::ActiveSet),
    );
    assert_eq!(s.status, QpStatus::Optimal);
    assert!(near(&s.x, &[1.0, 1.0], 1e-6));
}

#[test]
fn interior_multipliers_are_positive() {
    let (h, c, ae, be, ai, bi) = sample();
    let s = solve_qp(
        &m(&h),
        &v(&c),
        Some(&m(&ae)),
        Some(&v(&be)),
        Some(&m(&ai)),
        Some(&v(&bi)),
        None,
        &qp_cfg(QpSolver::Ipm),
    );
    assert!(s.lambda_iq.iter().all(|l| l.0 > 0.0));
}

#[test]
fn equality_only_interior_point_needs_one_step() {
    let (h, c, ae, be, _, _) = sample();
    let s = solve_qp(
        &m(&h),
        &v(&c),
        Some(&m(&ae)),
        Some(&v(&be)),
        None,
        None,
        None,
        &qp_cfg(QpSolver::Ipm),
    );
    assert_eq!(s.status, QpStatus::Optimal);
    assert_eq!(s.iterations, 2);
}

#[test]
fn contradicting_bounds_are_infeasible() {
    let s = solve_qp(
        &rows(1, 1, &[1.0]),
        &fv(&[0.0]),
        None,
        None,
        Some(&rows(2, 1, &[1.0, -1.0])),
        Some(&fv(&[-1.0, -1.0])),
        None,
        &qp_cfg(QpSolver::Clarabel),
    );
    assert_eq!(s.status, QpStatus::Infeasible);
}

#[test]
fn every_active_set_solve_stores_its_point() {
    let cfg = qp_cfg(QpSolver::ActiveSet);
    let one = rows(1, 1, &[1.0]);
    let (c, lo) = (fv(&[0.0]), rows(2, 1, &[1.0, -1.0]));
    // Contradicting bounds.
    let mut ws = QpWorkspace::new();
    let s = solve_qp_warm(
        &one,
        &c,
        None,
        None,
        Some(&lo),
        Some(&fv(&[-1.0, -1.0])),
        None,
        &cfg,
        &mut ws,
    );
    assert_eq!(s.status, QpStatus::Infeasible);
    assert_eq!(format!("{ws:?}"), "QpWorkspace { x: Some([F(0.0)]), working_set: [] }");
    // A Hessian that does not factor, over a state that was there before.
    let s = solve_qp_warm(&one, &fv(&[-3.0]), None, None, None, None, None, &cfg, &mut ws);
    assert_eq!(s.status, QpStatus::Optimal);
    assert_eq!(format!("{ws:?}"), "QpWorkspace { x: Some([F(3.0)]), working_set: [] }");
    let s = solve_qp_warm(
        &rows(1, 1, &[-1.0]),
        &c,
        None,
        None,
        None,
        None,
        None,
        &cfg,
        &mut ws,
    );
    assert_eq!(s.status, QpStatus::NumericalFailure);
    assert_eq!(format!("{ws:?}"), "QpWorkspace { x: Some([F(0.0)]), working_set: [] }");
    // Equalities that depend on each other.
    let mut ws = QpWorkspace::new();
    let s = solve_qp_warm(
        &rows(2, 2, &[1.0, 0.0, 0.0, 1.0]),
        &fv(&[0.0, 0.0]),
        Some(&rows(2, 2, &[1.0, 0.0, 1.0, 0.0])),
        Some(&fv(&[0.0, 0.0])),
        None,
        None,
        None,
        &cfg,
        &mut ws,
    );
    assert_eq!(s.status, QpStatus::NumericalFailure);
    assert_eq!(format!("{ws:?}"), "QpWorkspace { x: Some([F(0.0), F(0.0)]), working_set: [] }");
    // The other solvers leave the workspace as it is.
    for solver in [QpSolver::Clarabel, QpSolver::Ipm, QpSolver::Admm] {
        solve_qp_warm(&one, &c, None, None, None, None, None, &qp_cfg(solver), &mut ws);
        assert_eq!(
            format!("{ws:?}"),
            "QpWorkspace { x: Some([F(0.0), F(0.0)]), working_set: [] }"
        );
    }
    // A stored failure does not stand in the way of the next solve.
    let s = solve_qp_warm(
        &rows(2, 2, &[1.0, 0.0, 0.0, 1.0]),
        &fv(&[-1.0, -2.0]),
        None,
        None,
        None,
        None,
        None,
        &cfg,
        &mut ws,
    );
    assert_eq!(s.status, QpStatus::Optimal);
    assert!(near(&s.x, &[1.0, 2.0], 1e-9));
}

#[test]
fn active_set_multipliers_belong_to_tight_rows() {
    let (h, c, ae, be, ai, bi) = sample();
    let s = solve_qp(
        &m(&h),
        &v(&c),
        Some(&m(&ae)),
        Some(&v(&be)),
        Some(&m(&ai)),
        Some(&v(&bi)),
        None,
        &qp_cfg(QpSolver::ActiveSet),
    );
    let room = &bi - &ai * dv(&s.x);
    assert!(s.lambda_iq[0].0 > 0.1 && room[0].abs() < 1e-9);
    assert!(s.lambda_iq[1].0 == 0.0 && room[1] > 1.0);
}

#[test]
fn a_proximal_solve_is_the_augmented_solve() {
    let (h, c, ae, be, ai, bi) = sample();
    let (w, x0) = (0.7, DVector::from_vec(vec![0.5, -1.0, 2.0]));
    let h1 = &h + DMatrix::identity(3, 3) * w;
    let c1 = &c - &x0 * w;
    for solver in ALL {
        let on = QpConfig { prox_weight: F(w), ..qp_cfg(solver) };
        let go = |h: &DMatrix<f64>, c: &DVector<f64>, cfg: &QpConfig<F>| {
            solve_qp(
                &m(h),
                &v(c),
                Some(&m(&ae)),
                Some(&v(&be)),
                Some(&m(&ai)),
                Some(&v(&bi)),
                Some(&v(&x0)),
                cfg,
            )
        };
        let (s, s0) = (go(&h, &c, &on), go(&h1, &c1, &qp_cfg(solver)));
        assert_eq!(s.status, s0.status, "{solver:?}");
        assert_eq!(s.iterations, s0.iterations, "{solver:?}");
        assert!((dv(&s.x) - dv(&s0.x)).norm() < 1e-9, "{solver:?}");
        assert!((dv(&s.lambda_iq) - dv(&s0.lambda_iq)).norm() < 1e-9, "{solver:?}");
        let x = dv(&s.x);
        let stated = 0.5 * x.dot(&(&h * &x)) + c.dot(&x);
        assert!((s.objective.0 - stated).abs() < 1e-9, "{solver:?}");
    }
}

#[test]
fn solvers_agree_on_a_strongly_convex_problem() {
    let (h, c, ae, be, ai, bi) = sample();
    let go = |solver| {
        dv(&solve_qp(
            &m(&h),
            &v(&c),
            Some(&m(&ae)),
            Some(&v(&be)),
            Some(&m(&ai)),
            Some(&v(&bi)),
            None,
            &qp_cfg(solver),
        )
        .x)
    };
    let first = go(QpSolver::ActiveSet);
    for solver in ALL {
        assert!((go(solver) - &first).norm() < 1e-4, "{solver:?}");
    }
}

#[test]
fn a_ridged_answer_is_as_accurate_as_its_ridge() {
    // A singular Hessian is ridged by 1e-6 of its largest diagonal entry.
    let h = DMatrix::from_row_slice(2, 2, &[1.0, 0.0, 0.0, 0.0]);
    let s = solve_qp(
        &m(&h),
        &fv(&[-1.0, 0.0]),
        None,
        None,
        Some(&rows(1, 2, &[0.0, 1.0])),
        Some(&fv(&[3.0])),
        None,
        &qp_cfg(QpSolver::ActiveSet),
    );
    assert_eq!(s.status, QpStatus::Optimal);
    let g = &h * dv(&s.x) + DVector::from_vec(vec![-1.0, s.lambda_iq[0].0]);
    assert!(g.iter().zip(&s.x).all(|(g, x)| g.abs() <= 2e-6 * (1.0 + x.0.abs())));
}

#[test]
fn splitting_does_not_accept_unordered_residuals() {
    let cfg = QpConfig { max_iters: 50, ..qp_cfg(QpSolver::Admm) };
    for c in [vec![f64::NAN], vec![0.0, f64::NAN], vec![f64::NAN, 0.0]] {
        let n = c.len();
        let s = solve_qp(
            &Matrix::identity(n),
            &fv(&c),
            None,
            None,
            Some(&Matrix::identity(n)),
            Some(&vec![F(1.0); n]),
            None,
            &cfg,
        );
        assert_eq!(s.status, QpStatus::MaxIterations, "{c:?}");
    }
}

#[test]
fn running_extremes_keep_unordered_entries() {
    let nan = f64::NAN;
    assert_eq!(peak(&fv(&[])), F(0.0));
    assert_eq!(peak(&fv(&[1.0, -3.0, 2.0])), F(3.0));
    assert!(peak(&fv(&[1.0, nan])).0.is_nan());
    assert_eq!(peak(&fv(&[nan, -2.0])), F(2.0));
    assert_eq!(least(&fv(&[1.0, -3.0, 2.0])), F(-3.0));
    assert!(least(&fv(&[1.0, nan])).0.is_nan());
    assert_eq!(least(&fv(&[nan, 1.0])), F(1.0));
    assert_eq!(amax(&fv(&[1.0, nan])), F(1.0));
    assert_eq!(vmin(&fv(&[1.0, nan])), F(1.0));
}

#[test]
fn removing_a_row_rebuilds_the_factor() {
    let h = DMatrix::from_row_slice(3, 3, &[4.0, 1.0, 0.0, 1.0, 3.0, 0.5, 0.0, 0.5, 2.0]);
    let l = m(&h.cholesky().unwrap().l());
    let all = [[1.0, 0.0, 2.0], [0.0, 1.0, -1.0], [1.0, 1.0, 0.0]];
    let z = fv(&[0.3, -0.2, 0.9]);
    for k in 0..3 {
        let mut f = ActiveFactor::with_capacity(3);
        let mut g = ActiveFactor::with_capacity(3);
        for (i, r) in all.iter().enumerate() {
            assert!(f.try_push(fv(r), l.rows_ref()));
            if i != k {
                assert!(g.try_push(fv(r), l.rows_ref()));
            }
        }
        f.remove(k);
        assert_eq!(f.len(), 2);
        let rhs = fv(&[1.0, -2.0]);
        assert!((dv(&f.dot_rows(&z)) - dv(&g.dot_rows(&z))).norm() < 1e-12);
        let (a, b) = (f.solve_schur(&rhs), g.solve_schur(&rhs));
        assert!((dv(&a) - dv(&b)).norm() < 1e-12);
        assert!((dv(&f.project(&z, &a)) - dv(&g.project(&z, &a))).norm() < 1e-12);
    }
}

// The hierarchy.

#[test]
fn appended_levels_leave_the_upper_ones() {
    let levels = [
        eq(&[1.0, 1.0, 0.0], 2.0),
        eq(&[0.0, 1.0, 1.0], -1.0),
        eq(&[1.0, 0.0, -1.0], 9.0) + eq(&[1.0, 0.0, 0.0], 0.25),
    ];
    let all = solve(&levels, &SolveConfig::default()).unwrap();
    for k in 1..3 {
        let upper = solve(&levels[..k], &SolveConfig::default()).unwrap();
        for t in &levels[..k] {
            let gap = dm(&t.a) * dv(&all.x) - dm(&t.a) * dv(&upper.x);
            assert!(gap.norm() < 1e-5);
        }
    }
}

#[test]
fn lower_levels_keep_the_inequalities() {
    for backend in ALL {
        let cfg = SolveConfig { backend, max_iters: 5000, ..SolveConfig::default() };
        let s = solve(
            &[le(&[1.0, 0.0], 1.0), le(&[0.0, 1.0], 2.0), eq(&[1.0, 0.0], 9.0)
                + eq(&[0.0, 1.0], 9.0)],
            &cfg,
        )
        .unwrap();
        assert!(s.x[0].0 < 1.0 + 1e-3 && s.x[1].0 < 2.0 + 1e-3, "{backend:?}");
    }
}

#[test]
fn lower_levels_leave_upper_equalities() {
    let top = eq(&[1.0, 1.0, 0.0], 2.0);
    let low = Task::equality(rows(3, 3, &[1.0, 0.0, 0.0, 0.0, 1.0, 0.0, 0.0, 0.0, 1.0]), fv(&[5.0, 5.0, 7.0]));
    let one = solve(&[top.clone()], &SolveConfig::default()).unwrap();
    let two = solve(&[top, low], &SolveConfig::default()).unwrap();
    assert!((one.x[0].0 + one.x[1].0 - 2.0).abs() < 1e-6);
    assert!((two.x[0].0 + two.x[1].0 - 2.0).abs() < 1e-6);
    assert!(near(&two.x, &[1.0, 1.0, 7.0], 1e-5));
}

#[test]
fn budget_inequalities_bind_later_levels() {
    let cfg = SolveConfig { strategy: HqpStrategy::ForceBudgetCascade, ..SolveConfig::default() };
    let s = solve(&[le(&[1.0, 0.0], 1.0), le(&[0.0, 1.0], 2.0), eq(&[1.0, 0.0], 9.0)
        + eq(&[0.0, 1.0], 9.0)], &cfg)
    .unwrap();
    assert!(near(&s.x, &[1.0, 2.0], 1e-5));
}

#[test]
fn the_first_failing_level_is_reported_and_held() {
    let cfg = SolveConfig { backend: QpSolver::Ipm, max_iters: 0, ..SolveConfig::default() };
    for strategy in [HqpStrategy::NullSpace, HqpStrategy::ForceBudgetCascade] {
        let s = solve(&[eq(&[1.0], 1.0), eq(&[1.0], 2.0)], &SolveConfig { strategy, ..cfg.clone() })
            .unwrap();
        assert_eq!(
            s.status,
            SolveStatus::Degraded { level: 0, status: QpStatus::MaxIterations }
        );
        assert_eq!(s.x, fv(&[0.0]));
        assert_eq!(s.warm_anchor, s.x);
    }
}

#[test]
fn a_failed_level_holds_the_point_and_takes_its_slack() {
    let start: HoQp<F> = HoQp::start(1);
    let stuck = qp_cfg(QpSolver::Ipm);
    let (held, _) = start.descend(
        &le(&[-1.0], -3.0),
        &WarmStart::none(),
        &QpConfig { max_iters: 0, ..stuck },
        None,
    );
    assert_eq!(held.status(), QpStatus::MaxIterations);
    assert_eq!(held.solution(), &fv(&[0.0]));
    // The next level may still move, within the slack that the failed one took.
    let (next, _) =
        held.descend(&eq(&[1.0], -5.0), &WarmStart::none(), &qp_cfg(QpSolver::Clarabel), None);
    assert_eq!(next.status(), QpStatus::Optimal);
    assert!(near(next.solution(), &[0.0], 1e-5));
}

#[test]
fn refusals_name_the_first_bad_level() {
    let none: [Task<F>; 0] = [];
    assert_eq!(solve(&none, &SolveConfig::default()).unwrap_err(), WbcError::NoLevels);
    assert_eq!(WbcError::NoLevels.message(), "solve: no priority levels given");
    let e = solve(
        &[Task::empty(0), eq(&[1.0, 0.0], 1.0), eq(&[1.0], 1.0), eq(&[1.0, 2.0, 3.0], 1.0)],
        &SolveConfig::default(),
    )
    .unwrap_err();
    assert_eq!(e, WbcError::DimMismatch { level: 2, expected: 2, found: 1 });
    assert_eq!(e.message(), "solve: level 2 has n_decision 1, expected 2");
}

#[test]
fn an_anchor_without_weight_is_a_cold_solve() {
    let levels = [eq(&[1.0, 1.0], 2.0)];
    let cold = solve(&levels, &SolveConfig::default()).unwrap();
    let anchor = fv(&[9.0, -9.0]);
    let same = solve_warm(&levels, &SolveConfig::default(), Some(&anchor)).unwrap();
    assert_eq!(same.x, cold.x);
    let cfg = SolveConfig { prox_weight: F(1e-3), ..SolveConfig::default() };
    let pulled = solve_warm(&levels, &cfg, Some(&anchor)).unwrap();
    assert!((pulled.x[0].0 - pulled.x[1].0 - 18.0).abs() < 0.1);
}

#[test]
fn sessions_without_state_are_free_solves() {
    let levels = [eq(&[1.0, 1.0], 2.0) + le(&[1.0, 0.0], 0.5), eq(&[1.0, -1.0], 0.0)];
    for backend in ALL {
        let cfg = SolveConfig { backend, max_iters: 5000, ..SolveConfig::default() };
        let free = solve(&levels, &cfg).unwrap();
        let mut session = Solver::new();
        let first = session.solve(&levels, &cfg).unwrap();
        assert_eq!(first.x, free.x, "{backend:?}");
        assert_eq!(first.status, free.status, "{backend:?}");
        let second = session.solve(&levels, &cfg).unwrap();
        if backend != QpSolver::ActiveSet {
            assert_eq!(second.x, free.x, "{backend:?}");
        }
        // A refused solve leaves the session as it is; a reset makes it fresh.
        assert!(session.solve(&[], &cfg).is_err());
        session.reset();
        assert_eq!(session.solve(&levels, &cfg).unwrap().x, free.x, "{backend:?}");
    }
}

// Stacks.

fn named() -> Stack<F> {
    let vars = VarLayout::builder().add("x", 2).build();
    Stack::new(&vars)
        .level("pin", |l| l.task("x0", eq(&[1.0, 0.0], 1.0)).task("cap", le(&[0.0, 1.0], 3.0)))
        .level("rest", |l| l.task("reg", eq(&[0.0, 1.0], 9.0)))
}

#[test]
fn description_lists_every_task() {
    let text = "stack (2 decision vars, 2 levels)\n\
                \x20 level 0 \"pin\"\n\
                \x20   x0                       eq   1  iq   0\n\
                \x20   cap                      eq   0  iq   1\n\
                \x20 level 1 \"rest\"\n\
                \x20   reg                      eq   1  iq   0\n";
    assert_eq!(named().describe(), text);
}

#[test]
fn a_written_report_marks_levels_and_numbers() {
    let task = |name: &str, r: Option<&str>, k: Option<&str>| TaskReport {
        name: name.to_string(),
        eq_residual: r.map(str::to_string),
        iq_margin: k.map(str::to_string),
    };
    let report = Report {
        levels: vec![
            LevelReport {
                name: "pin".to_string(),
                degraded: false,
                tasks: vec![task("x0", Some("1.000e0"), None), task("both", Some("2"), Some("+3"))],
            },
            LevelReport {
                name: "rest".to_string(),
                degraded: true,
                tasks: vec![task("none", None, None)],
            },
        ],
    };
    let text = "level 0 \"pin\": optimal\n\
                \x20 x0                       ‖A·x−b‖ = 1.000e0\n\
                \x20 both                     ‖A·x−b‖ = 2  margin min = +3\n\
                level 1 \"rest\": DEGRADED\n\
                \x20 none                    \n";
    assert_eq!(report.describe(), text);
}

#[test]
fn the_report_says_what_was_met() {
    let s = named().solve(&SolveConfig::default()).unwrap();
    assert_eq!(s.solution().warm_anchor, s.solution().x);
    let r = s.report();
    assert_eq!(r.levels.len(), 2);
    assert_eq!(r.levels[0].name, "pin");
    assert!(!r.levels[0].degraded && !r.levels[1].degraded);
    let (x0, cap, reg) = (&r.levels[0].tasks[0], &r.levels[0].tasks[1], &r.levels[1].tasks[0]);
    assert!(x0.eq_residual.unwrap().0 < 1e-6 && x0.iq_margin.is_none());
    assert!(cap.eq_residual.is_none());
    assert!(cap.iq_margin.unwrap().0.abs() < 1e-3);
    assert!((reg.eq_residual.unwrap().0 - 6.0).abs() < 1e-3);
    // The summed task of a level has the rows of its tasks.
    let sums = named().to_tasks();
    assert_eq!((sums[0].n_eq(), sums[0].n_iq()), (1, 1));
    assert_eq!((sums[1].n_eq(), sums[1].n_iq()), (1, 0));
}

#[test]
fn an_unordered_margin_is_reported() {
    let vars = VarLayout::builder().add("x", 1).build();
    let stack = Stack::new(&vars).level("caps", |l| {
        l.task("two", le(&[1.0], 1.0) + le(&[0.0], f64::NAN)).task("one", le(&[1.0], 4.0))
    });
    let r = stack.solve(&SolveConfig::default()).unwrap().report();
    assert!(r.levels[0].tasks[0].iq_margin.unwrap().0.is_nan());
    assert!(r.levels[0].tasks[1].iq_margin.unwrap().0.is_finite());
}

#[test]
fn copies_of_solutions_and_reports_are_equal() {
    let s = named().solve(&SolveConfig::default()).unwrap();
    let t = s.clone();
    assert_eq!((t.status(), &t.solution().x), (s.status(), &s.solution().x));
    let (r, q) = (s.report(), s.report().clone());
    assert_eq!(format!("{r:?}"), format!("{q:?}"));
    assert_eq!(format!("{:?}", r.levels[0].clone()), format!("{:?}", q.levels[0]));
    assert_eq!(format!("{:?}", r.levels[0].tasks[1].clone()), format!("{:?}", q.levels[0].tasks[1]));
    assert_eq!(format!("{r:?}"), format!("{:?}", t.report()));
}

#[test]
fn a_degraded_level_is_marked() {
    let cfg = SolveConfig { backend: QpSolver::Ipm, max_iters: 0, ..SolveConfig::default() };
    let r = named().solve(&cfg).unwrap().report();
    assert!(r.levels[0].degraded && !r.levels[1].degraded);
}

// Dynamics.

#[test]
fn formulations_recover_the_same_quantities() {
    let mass = DMatrix::from_row_slice(2, 2, &[2.0, 0.5, 0.5, 1.0]);
    let h = DVector::from_vec(vec![0.3, -0.2]);
    let jc = DMatrix::from_row_slice(1, 2, &[1.0, 2.0]);
    // Unactuated first joint: choose f and tau, then qddot follows.
    let (f, tau) = (DVector::from_vec(vec![1.5]), DVector::from_vec(vec![-0.7]));
    let s_t = DMatrix::from_row_slice(2, 1, &[0.0, 1.0]);
    let q = mass.clone().cholesky().unwrap().solve(&(&s_t * &tau + jc.transpose() * &f - &h));
    let cat = |parts: &[&DVector<f64>]| -> Vec<F> {
        parts.iter().flat_map(|p| p.iter().map(|x| F(*x))).collect()
    };
    for (formulation, x) in [
        (Formulation::Explicit, cat(&[&q, &f, &tau])),
        (Formulation::AccelSpace, cat(&[&q, &f])),
        (Formulation::ForceSpace, cat(&[&tau, &f])),
    ] {
        let d = Dynamics::new(formulation, &m(&mass), &v(&h), &m(&jc), 1).clone();
        assert_eq!(d.formulation(), formulation);
        assert_eq!((d.qddot().out_size(), d.tau().out_size(), d.forces().size()), (2, 1, 1));
        assert_eq!(d.layout().n_decision(), x.len());
        let e = d.extract(&x).clone();
        assert!((dv(&e.qddot) - &q).norm() < 1e-12);
        assert!((dv(&e.forces) - &f).norm() < 1e-12);
        assert!((dv(&e.tau) - &tau).norm() < 1e-12);
        match d.dynamics_task() {
            Some(t) => {
                assert!(formulation != Formulation::ForceSpace);
                let r = dm(&t.a) * dv(&x) - dv(&t.b);
                assert!(r.norm() < 1e-12);
            }
            None => assert_eq!(formulation, Formulation::ForceSpace),
        }
        let j = rows(1, 2, &[1.0, -1.0]);
        let t = tasks::cartesian_acceleration(d.qddot(), &j, &fv(&[0.1]), &fv(&[0.4]));
        let r = dm(&t.a) * dv(&x) - dv(&t.b);
        assert!((r[0] - (q[0] - q[1] + 0.1 - 0.4)).abs() < 1e-12);
    }
}

#[test]
fn actuated_rows_hold_at_every_accel_space_vector() {
    let mass = DMatrix::from_row_slice(2, 2, &[2.0, 0.5, 0.5, 1.0]);
    let h = DVector::from_vec(vec![0.3, -0.2]);
    let jc = DMatrix::from_row_slice(1, 2, &[1.0, 2.0]);
    let d = Dynamics::new(Formulation::AccelSpace, &m(&mass), &v(&h), &m(&jc), 1);
    for x in [[1.0, 2.0, 3.0], [-0.5, 0.25, 9.0]] {
        let e = d.extract(&fv(&x));
        let gap = &mass * dv(&e.qddot) + &h - jc.transpose() * dv(&e.forces);
        assert!((gap[1] - e.tau[0].0).abs() < 1e-12);
        assert!(gap[0].abs() > 1e-3);
    }
}

#[test]
fn copied_joint_limits_give_the_same_bounds() {
    let limits = JointLimitCbf {
        q_min: fv(&[-1.0]),
        q_max: fv(&[1.0]),
        v_max: fv(&[2.0]),
        a_max: fv(&[10.0]),
        alpha1: fv(&[3.0]),
        alpha2: fv(&[4.0]),
        alpha3: fv(&[5.0]),
    };
    assert_eq!(format!("{:?}", limits.clone()), format!("{limits:?}"));
}

// Contact forces.

/// Two feet at +-1 along x: forces and the moment about y.
fn wrench_map() -> Matrix<F> {
    let mut w = DMatrix::zeros(6, 6);
    for leg in 0..2 {
        let x = if leg == 0 { 1.0 } else { -1.0 };
        for i in 0..3 {
            w[(3 + i, 3 * leg + i)] = 1.0;
        }
        w[(1, 3 * leg + 2)] = -x;
        w[(2, 3 * leg + 1)] = x;
    }
    m(&w)
}

#[test]
fn stance_legs_share_the_wrench() {
    let f = distribute_contact_forces(
        &wrench_map(),
        &fv(&[0.0, 0.0, 0.0, 0.0, 0.0, 10.0]),
        &vec![true, true],
        F(0.5),
        F(100.0),
        F(1e-4),
    )
    .unwrap();
    assert_eq!(f.len(), 6);
    assert!(near(&f, &[0.0, 0.0, 5.0, 0.0, 0.0, 5.0], 1e-4));
}

#[test]
fn swing_legs_carry_nothing_and_stance_stays_in_the_pyramid() {
    let f = distribute_contact_forces(
        &wrench_map(),
        &fv(&[0.0, 0.0, 0.0, 30.0, 0.0, 10.0]),
        &vec![true, false],
        F(0.5),
        F(8.0),
        F(1e-6),
    )
    .unwrap();
    assert!(f[3..].iter().all(|x| x.0.abs() < 1e-3));
    assert!(f[2].0 > -1e-3 && f[2].0 < 8.0 + 1e-3);
    assert!(f[0].0.abs() < 0.5 * f[2].0 + 1e-3 && f[1].0.abs() < 0.5 * f[2].0 + 1e-3);
}

#[test]
fn bad_contact_shapes_are_refused() {
    let w = fv(&[0.0; 6]);
    let legs = vec![true, true];
    let bad = distribute_contact_forces(&rows(2, 1, &[1.0, 1.0]), &w, &legs, F(0.5), F(9.0), F(1.0));
    assert_eq!(bad.unwrap_err(), ContactError::MapShape { legs: 2, rows: 2, cols: 1 });
    let short =
        distribute_contact_forces(&wrench_map(), &fv(&[0.0; 5]), &legs, F(0.5), F(9.0), F(1.0));
    assert_eq!(short.unwrap_err(), ContactError::WrenchLength { found: 5 });
}
