//! Tasks, formulations, hierarchies and stacks on double-precision floats.

use clarabel::algebra::CscMatrix;
use clarabel::solver::{
    DefaultSettings, DefaultSettingsBuilder, DefaultSolver, IPSolver, SolverStatus, SupportedConeT,
};
use misa_wbc::dense::Mat;
use misa_wbc::kernels::{
    Backend, Cone, Conic, ConicAnswer, ConicProblem, ConicReply, ConicStatus, Csc, DenseKernels,
};
use misa_wbc::scalar::{Arith, Scalar};
use misa_wbc::refgen::{impedance, pd, vel};
use misa_wbc::tasks::{self, ContactPatch, JointLimitCbf};
use misa_wbc::{
    solve, solve_warm, Affine, Dynamics, Formulation, HqpStrategy, Matrix, QpConfig, QpSolver,
    SolveConfig, SolveStatus, Solver, Stack, Task, Var, VarLayout, WbcError,
};
use nalgebra::{DMatrix, DVector};

/// A double-precision scalar.
#[derive(Debug, Clone, Copy, PartialEq, PartialOrd)]
struct F(f64);

/// The operations as values: what the executable ones below compute.
impl Arith for F {
    fn zero_s() -> F {
        F::zero()
    }
    fn one_s() -> F {
        F::one()
    }
    fn nat_s(n: usize) -> F {
        F::of_count(n)
    }
    fn dec_s(m: i64, e: i32) -> F {
        F::dec(m, e)
    }
    fn add_s(self, o: F) -> F {
        self.plus(o)
    }
    fn sub_s(self, o: F) -> F {
        self.minus(o)
    }
    fn mul_s(self, o: F) -> F {
        self.times(o)
    }
    fn div_s(self, o: F) -> F {
        self.over(o)
    }
    fn neg_s(self) -> F {
        self.negated()
    }
    fn abs_s(self) -> F {
        self.magnitude()
    }
    fn sqrt_s(self) -> F {
        self.root()
    }
    fn hypot_s(self, o: F) -> F {
        self.hypotenuse(o)
    }
    fn max_s(self, o: F) -> F {
        self.larger(o)
    }
    fn min_s(self, o: F) -> F {
        self.smaller(o)
    }
    fn lt_s(self, o: F) -> bool {
        self.less_than(o)
    }
    fn le_s(self, o: F) -> bool {
        self.at_most(o)
    }
}

impl Scalar for F {
    fn zero() -> F {
        F(0.0)
    }
    fn one() -> F {
        F(1.0)
    }
    fn of_count(n: usize) -> F {
        F(n as f64)
    }
    fn dec(m: i64, e: i32) -> F {
        F(format!("{m}e{e}").parse().unwrap())
    }
    fn plus(self, o: F) -> F {
        F(self.0 + o.0)
    }
    fn minus(self, o: F) -> F {
        F(self.0 - o.0)
    }
    fn times(self, o: F) -> F {
        F(self.0 * o.0)
    }
    fn over(self, o: F) -> F {
        F(self.0 / o.0)
    }
    fn negated(self) -> F {
        F(-self.0)
    }
    fn magnitude(self) -> F {
        F(self.0.abs())
    }
    fn root(self) -> F {
        F(self.0.sqrt())
    }
    fn hypotenuse(self, o: F) -> F {
        F(self.0.hypot(o.0))
    }
    fn larger(self, o: F) -> F {
        F(self.0.max(o.0))
    }
    fn smaller(self, o: F) -> F {
        F(self.0.min(o.0))
    }
    fn less_than(self, o: F) -> bool {
        self.0 < o.0
    }
    fn at_most(self, o: F) -> bool {
        self.0 <= o.0
    }
}

fn m(a: &DMatrix<f64>) -> Matrix<F> {
    Matrix::tabulate(a.nrows(), a.ncols(), |i, j| F(a[(i, j)]))
}

fn dm(a: &Matrix<F>) -> DMatrix<f64> {
    DMatrix::from_fn(a.nrows(), a.ncols(), |i, j| a.at(i, j).0)
}

fn v(a: &DVector<f64>) -> Vec<F> {
    a.iter().map(|x| F(*x)).collect()
}

fn dv(a: &[F]) -> DVector<f64> {
    DVector::from_iterator(a.len(), a.iter().map(|x| x.0))
}

fn csc(a: &Csc<F>) -> CscMatrix<f64> {
    CscMatrix::new(
        a.rows,
        a.cols,
        a.col_ptr.clone(),
        a.row_idx.clone(),
        a.vals.iter().map(|x| x.0).collect(),
    )
}

/// The results of the kernels as values. These only name what the executable
/// kernels below return, and never run.
impl DenseKernels for F {
    fn cholesky_s(_a: Mat<F>) -> Option<Mat<F>> {
        unreachable!()
    }
    fn lu_solve_s(_a: Mat<F>, _b: Mat<F>) -> Option<Mat<F>> {
        unreachable!()
    }
    fn null_space_s(_a: Mat<F>) -> Mat<F> {
        unreachable!()
    }
    fn conic_s(_p: Conic<F>) -> ConicAnswer<F> {
        unreachable!()
    }
}

impl Backend for F {
    fn cholesky(a: &Matrix<F>) -> Option<Matrix<F>> {
        dm(a).cholesky().map(|c| m(&c.l()))
    }
    fn lu_solve(a: &Matrix<F>, b: &Matrix<F>) -> Option<Matrix<F>> {
        dm(a).lu().solve(&dm(b)).map(|x| m(&x))
    }
    fn null_space(a: &Matrix<F>) -> Matrix<F> {
        let n = a.ncols();
        let mut padded = DMatrix::zeros(a.nrows().max(n), n);
        padded.view_mut((0, 0), (a.nrows(), n)).copy_from(&dm(a));
        if n == 0 {
            return m(&DMatrix::zeros(0, 0));
        }
        let svd = padded.svd(false, true);
        let vt = svd.v_t.unwrap();
        let top = svd.singular_values.max();
        let free: Vec<usize> =
            (0..n).filter(|&i| svd.singular_values[i] <= 1e-9 * top.max(1e-300)).collect();
        m(&DMatrix::from_fn(n, free.len(), |i, j| vt[(free[j], i)]))
    }
    fn conic(p: &ConicProblem<F>) -> ConicReply<F> {
        let cones: Vec<SupportedConeT<f64>> = p
            .cones
            .iter()
            .map(|c| match c {
                Cone::Zero(k) => SupportedConeT::ZeroConeT(*k),
                Cone::Nonnegative(k) => SupportedConeT::NonnegativeConeT(*k),
            })
            .collect();
        let settings = DefaultSettingsBuilder::default()
            .max_iter(p.max_iter)
            .tol_gap_abs(p.tol_gap.0)
            .tol_gap_rel(p.tol_gap.0)
            .tol_feas(p.tol_feas.0)
            .verbose(false)
            .build()
            .unwrap_or_else(|_| DefaultSettings::default());
        let q: Vec<f64> = p.q.iter().map(|x| x.0).collect();
        let b: Vec<f64> = p.b.iter().map(|x| x.0).collect();
        let mut solver =
            DefaultSolver::new(&csc(&p.p), &q, &csc(&p.a), &b, &cones, settings).unwrap();
        solver.solve();
        let status = match solver.solution.status {
            SolverStatus::Solved => ConicStatus::Solved,
            SolverStatus::AlmostSolved => ConicStatus::AlmostSolved,
            SolverStatus::MaxIterations => ConicStatus::MaxIterations,
            SolverStatus::PrimalInfeasible => ConicStatus::PrimalInfeasible,
            SolverStatus::DualInfeasible => ConicStatus::DualInfeasible,
            SolverStatus::AlmostPrimalInfeasible => ConicStatus::AlmostPrimalInfeasible,
            SolverStatus::AlmostDualInfeasible => ConicStatus::AlmostDualInfeasible,
            _ => ConicStatus::Other,
        };
        ConicReply {
            status,
            x: solver.solution.x.iter().map(|x| F(*x)).collect(),
            z: solver.solution.z.iter().map(|x| F(*x)).collect(),
            iterations: solver.solution.iterations,
        }
    }
}

fn fv(a: &[f64]) -> Vec<F> {
    a.iter().map(|x| F(*x)).collect()
}

fn fill(n: usize, x: f64) -> Vec<F> {
    vec![F(x); n]
}

fn rows(r: usize, c: usize, data: &[f64]) -> Matrix<F> {
    m(&DMatrix::from_row_slice(r, c, data))
}

fn eval(a: &Affine<F>, x: &[f64]) -> DVector<f64> {
    dv(&a.eval(&fv(x)))
}

fn var_affine(v: &Var) -> Affine<F> {
    v.affine()
}

/// The equality residual of a task.
fn residual(t: &Task<F>, x: &DVector<f64>) -> DVector<f64> {
    dm(&t.a) * x - dv(&t.b)
}

/// The inequality margins of a task.
fn margins(t: &Task<F>, x: &DVector<f64>) -> DVector<f64> {
    dv(&t.f) - dm(&t.d) * x
}

fn clarabel_cfg() -> SolveConfig<F> {
    SolveConfig::default()
}

// Affine variables.

fn small_layout() -> VarLayout {
    // x = [ qddot(2) ; f(3) ]   -> n_decision = 5
    VarLayout::builder().add("qddot", 2).add("f", 3).build()
}

#[test]
fn layout_offsets_and_sizes() {
    let l = small_layout();
    assert_eq!(l.n_decision(), 5);
    assert_eq!(l.var("qddot").offset(), 0);
    assert_eq!(l.var("qddot").size(), 2);
    assert_eq!(l.var("f").offset(), 2);
    assert_eq!(l.var("f").size(), 3);
    assert!(l.try_var("nope").is_none());
}

#[test]
fn var_affine_is_selection_matrix() {
    let l = small_layout();
    let f = var_affine(&l.var("f"));
    assert_eq!(f.out_size(), 3);
    assert_eq!(f.n_decision(), 5);
    // selects columns 2,3,4
    assert_eq!(
        eval(&f, &[10.0, 20.0, 1.0, 2.0, 3.0]),
        DVector::from_vec(vec![1.0, 2.0, 3.0])
    );
}

#[test]
fn matrix_times_var_places_block() {
    let l = small_layout();
    let qddot = l.var("qddot");
    // coef 2x2 acting on qddot -> affine 2x5 with coef in cols 0..2
    let coef = rows(2, 2, &[1.0, 2.0, 3.0, 4.0]);
    let a = &coef * &qddot;
    // [1*5+2*6 ; 3*5+4*6] = [17 ; 39]
    assert_eq!(
        eval(&a, &[5.0, 6.0, 0.0, 0.0, 0.0]),
        DVector::from_vec(vec![17.0, 39.0])
    );
}

/// A residual composed with the operators equals the hand-assembled map.
#[test]
fn composed_residual_matches_hand_assembly() {
    let l = small_layout();
    let qddot = l.var("qddot");
    let f = l.var("f");

    // e = Mu·qddot − Jcuᵀ·f + hu     (out_size 2)
    let m_u = DMatrix::from_row_slice(2, 2, &[1.0, 0.0, 0.0, 1.0]);
    let jc_u_t = DMatrix::from_row_slice(2, 3, &[1.0, 0.0, 1.0, 0.0, 1.0, 0.0]);
    let h_u = DVector::from_vec(vec![0.5, -0.5]);

    let e = &(&(&m(&m_u) * &qddot) - &(&m(&jc_u_t) * &f)) + &v(&h_u);
    assert_eq!(e.out_size(), 2);
    assert_eq!(e.n_decision(), 5);

    // hand assembly: M = [Mu | −Jcuᵀ], q = hu
    let x = DVector::from_vec(vec![1.0, 2.0, 0.1, 0.2, 0.3]);
    let mut hand = DMatrix::zeros(2, 5);
    hand.view_mut((0, 0), (2, 2)).copy_from(&m_u);
    hand.view_mut((0, 2), (2, 3)).copy_from(&(-&jc_u_t));
    let expected = &hand * &x + &h_u;
    assert!((dv(&e.eval(&v(&x))) - expected).norm() < 1e-12);
}

#[test]
fn neg_and_const_and_zeros() {
    let l = small_layout();
    let f = var_affine(&l.var("f"));
    let n = eval(&(-&f), &[0.0, 0.0, 1.0, 2.0, 3.0]);
    assert_eq!(n, DVector::from_vec(vec![-1.0, -2.0, -3.0]));

    let c = Affine::constant(fv(&[7.0, 8.0]), 5);
    assert_eq!(eval(&c, &[1.0, 1.0, 1.0, 1.0, 1.0]), DVector::from_vec(vec![7.0, 8.0]));
    assert_eq!(Affine::<F>::zeros(3, 5).out_size(), 3);
}

// Dynamics.

/// A small non-trivial consistent system: SPD M with coupling, nonzero h, a
/// contact Jacobian sensing base and joints.
fn toy_dynamics() -> (usize, usize, DMatrix<f64>, DVector<f64>, DMatrix<f64>) {
    let (nv, na) = (8usize, 2usize);
    // M = I + 0.1·L·Lᵀ  (SPD, deterministic coupling)
    let l = DMatrix::from_fn(nv, 3, |i, j| ((i + 2 * j) as f64 * 0.37).sin());
    let mass = DMatrix::<f64>::identity(nv, nv) + 0.1 * (&l * l.transpose());
    let h = DVector::from_fn(nv, |i, _| 0.3 * (i as f64 + 1.0).cos());
    let mut jc = DMatrix::zeros(3, nv);
    for i in 0..3 {
        jc[(i, i)] = 1.0;
    }
    jc[(0, 6)] = 0.2;
    jc[(1, 7)] = -0.1;
    (nv, na, mass, h, jc)
}

fn probe(n: usize) -> DVector<f64> {
    DVector::from_fn(n, |i, _| ((i as f64) * 0.71 - 1.3).sin())
}

fn actuation(nv: usize, na: usize) -> DMatrix<f64> {
    let n_base = nv - na;
    let mut s_t = DMatrix::zeros(nv, na);
    for i in 0..na {
        s_t[(n_base + i, i)] = 1.0;
    }
    s_t
}

/// In every formulation the expressions satisfy the equation of motion for any
/// x that satisfies the formulation's dynamics task.
#[test]
fn expressions_satisfy_eom_identity() {
    let (nv, na, mass, h, jc) = toy_dynamics();
    let n_base = nv - na;
    let s_t = actuation(nv, na);

    // ForceSpace: identity must hold for EVERY x (q̈ is defined by it).
    let d = Dynamics::new(Formulation::ForceSpace, &m(&mass), &v(&h), &m(&jc), na);
    let x = probe(d.layout().n_decision());
    let e = d.extract(&v(&x));
    let r = &mass * dv(&e.qddot) + &h - &s_t * dv(&e.tau) - jc.transpose() * dv(&e.forces);
    assert!(r.norm() < 1e-10, "ForceSpace EoM identity violated: {}", r.norm());

    // AccelSpace: the actuated rows must hold for every x (τ is defined by
    // them); the base rows are the remaining task.
    let d = Dynamics::new(Formulation::AccelSpace, &m(&mass), &v(&h), &m(&jc), na);
    let x = probe(d.layout().n_decision());
    let e = d.extract(&v(&x));
    let r = &mass * dv(&e.qddot) + &h - &s_t * dv(&e.tau) - jc.transpose() * dv(&e.forces);
    assert!(r.rows(n_base, na).norm() < 1e-10, "AccelSpace actuated-row identity violated");
    let task = d.dynamics_task().expect("base rows remain");
    assert_eq!(task.n_eq(), n_base);
    // The task's residual equals the base rows of the EoM residual.
    let task_res = residual(&task, &x);
    assert!((task_res - r.rows(0, n_base)).norm() < 1e-10);
}

/// The explicit formulation reproduces the equation-of-motion task and
/// raw-variable expressions.
#[test]
fn explicit_matches_task_catalogue() {
    let (nv, na, mass, h, jc) = toy_dynamics();
    let d = Dynamics::new(Formulation::Explicit, &m(&mass), &v(&h), &m(&jc), na);
    assert_eq!(d.layout().n_decision(), nv + 3 + na);
    let task = d.dynamics_task().expect("explicit keeps the full EoM");
    assert_eq!(task.n_eq(), nv);

    let x = probe(d.layout().n_decision());
    let e = d.extract(&v(&x));
    // Raw blocks: extraction is just slicing.
    assert_eq!(dv(&e.qddot), x.rows(0, nv).into_owned());
    assert_eq!(dv(&e.tau), x.rows(nv + 3, na).into_owned());
}

/// The same physical triple maps to consistent task residuals across
/// formulations.
#[test]
fn cartesian_task_agrees_across_formulations() {
    let (nv, na, mass, h, jc) = toy_dynamics();
    let j_task = m(&DMatrix::from_fn(3, nv, |i, j| ((i * 5 + j) as f64 * 0.23).cos()));
    let dj_v = fv(&[0.1, -0.2, 0.3]);
    let aref = fv(&[1.0, 0.5, -0.7]);

    // Pick a physical state in ForceSpace, then embed it in the other
    // formulation's decision vector.
    let df = Dynamics::new(Formulation::ForceSpace, &m(&mass), &v(&h), &m(&jc), na);
    let xf = probe(df.layout().n_decision());
    let e = df.extract(&v(&xf));

    let t_force = tasks::cartesian_acceleration(df.qddot(), &j_task, &dj_v, &aref);
    let rf = residual(&t_force, &xf);

    // Explicit: x = [q̈; f; τ].
    let de = Dynamics::new(Formulation::Explicit, &m(&mass), &v(&h), &m(&jc), na);
    let mut xe = DVector::zeros(de.layout().n_decision());
    xe.rows_mut(0, nv).copy_from(&dv(&e.qddot));
    xe.rows_mut(nv, 3).copy_from(&dv(&e.forces));
    xe.rows_mut(nv + 3, na).copy_from(&dv(&e.tau));
    let t_exp = tasks::cartesian_acceleration(de.qddot(), &j_task, &dj_v, &aref);
    let re = residual(&t_exp, &xe);

    assert!((rf - re).norm() < 1e-10, "task residuals differ across formulations");
}

// Reference generators.

#[test]
fn ladder_laws() {
    let x_ref = fv(&[1.0, 2.0]);
    let x = fv(&[0.5, 2.5]);
    let vel_now = fv(&[0.1, -0.2]);
    let zeros = fv(&[0.0, 0.0]);
    let kp = fv(&[100.0, 100.0]);
    let kd = fv(&[20.0, 20.0]);

    // vel: (v_ref − v)/T
    let a = vel(&zeros, &vel_now, F(0.5));
    assert!((a[0].0 - (-0.2)).abs() < 1e-12 && (a[1].0 - 0.4).abs() < 1e-12);

    // pd: kp·err + kd·(−v)
    let a = pd(&x_ref, &x, &zeros, &vel_now, &kp, &kd);
    assert!((a[0].0 - (100.0 * 0.5 - 20.0 * 0.1)).abs() < 1e-12);
    assert!((a[1].0 - (100.0 * -0.5 + 20.0 * 0.2)).abs() < 1e-12);

    // impedance == pd with v_ref = 0
    let b = impedance(&x_ref, &x, &vel_now, &kp, &kd);
    assert!((dv(&a) - dv(&b)).norm() < 1e-12);
}

// The hierarchy.

/// x = [a(1); b(1)];  prio0: a = 1 (eq) + b ≤ 3 (ineq);  prio1: b = 2.
fn levels() -> Vec<Task<F>> {
    let p0 = Task::equality(rows(1, 2, &[1.0, 0.0]), fv(&[1.0]))
        + Task::inequality(rows(1, 2, &[0.0, 1.0]), fv(&[3.0]));
    let p1 = Task::equality(rows(1, 2, &[0.0, 1.0]), fv(&[2.0]));
    vec![p0, p1]
}

#[test]
fn empty_levels_errors() {
    assert_eq!(solve::<F>(&[], &SolveConfig::default()).unwrap_err(), WbcError::NoLevels);
}

#[test]
fn dim_mismatch_errors() {
    let bad: Vec<Task<F>> = vec![
        Task::equality(Matrix::zeros(1, 2), fill(1, 0.0)),
        Task::equality(Matrix::zeros(1, 3), fill(1, 0.0)),
    ];
    assert!(matches!(
        solve(&bad, &SolveConfig::default()),
        Err(WbcError::DimMismatch { level: 1, expected: 2, found: 3 })
    ));
}

#[test]
fn solves_and_respects_priority() {
    let sol = solve(&levels(), &SolveConfig::default()).unwrap();
    assert_eq!(sol.status, SolveStatus::Optimal);
    assert!((sol.x[0].0 - 1.0).abs() < 1e-6, "a should track prio-0 eq");
    assert!((sol.x[1].0 - 2.0).abs() < 1e-6, "b should track prio-1 eq");
}

#[test]
fn backend_is_switchable() {
    // Same problem, active-set backend — should reach the same answer.
    let cfg = SolveConfig { backend: QpSolver::ActiveSet, ..Default::default() };
    let sol = solve(&levels(), &cfg).unwrap();
    assert!((sol.x[0].0 - 1.0).abs() < 1e-5);
    assert!((sol.x[1].0 - 2.0).abs() < 1e-5);
}

#[test]
fn warm_anchor_round_trips() {
    let cfg = SolveConfig { prox_weight: F(1e-3), ..Default::default() };
    let s1 = solve(&levels(), &cfg).unwrap();
    let s2 = solve_warm(&levels(), &cfg, Some(&s1.warm_anchor)).unwrap();
    assert!((dv(&s1.x) - dv(&s2.x)).norm() < 1e-4);
}

#[test]
fn session_matches_stateless_and_stays_optimal() {
    // ActiveSet backend + session: repeated ticks must stay optimal and agree
    // with the stateless solve (and Clarabel).
    let cfg = SolveConfig { backend: QpSolver::ActiveSet, ..Default::default() };
    let mut solver = Solver::new();
    let stateless = solve(&levels(), &SolveConfig::default()).unwrap();
    for _tick in 0..5 {
        let s = solver.solve(&levels(), &cfg).unwrap();
        assert_eq!(s.status, SolveStatus::Optimal);
        assert!((dv(&s.x) - dv(&stateless.x)).norm() < 1e-5, "session drifted");
    }
}

#[test]
fn session_survives_level_structure_changes() {
    // Changing level count / dimensions between ticks must fall back to a cold
    // start gracefully, not corrupt the result.
    let cfg = clarabel_cfg();
    let mut solver = Solver::new();
    let _ = solver.solve(&levels(), &cfg).unwrap();

    // Different structure: one level, three variables.
    let other = vec![Task::equality(
        rows(2, 3, &[1.0, 0.0, 0.0, 0.0, 1.0, 0.0]),
        fv(&[3.0, 4.0]),
    )];
    let s = solver.solve(&other, &cfg).unwrap();
    assert_eq!(s.status, SolveStatus::Optimal);
    assert!((s.x[0].0 - 3.0).abs() < 1e-6 && (s.x[1].0 - 4.0).abs() < 1e-6);

    // And back again.
    let s = solver.solve(&levels(), &cfg).unwrap();
    assert!((s.x[0].0 - 1.0).abs() < 1e-6 && (s.x[1].0 - 2.0).abs() < 1e-6);
}

// Stacks.

fn two_level() -> (VarLayout, Stack<F>) {
    let vars = VarLayout::builder().add("x", 2).build();
    let x = vars.var("x");
    let stack = Stack::new(&vars)
        .level("pin", |l| {
            l.task("x0=1", Task::equality(rows(1, 2, &[1.0, 0.0]), fv(&[1.0])))
                .task("x1≤3", Task::inequality(rows(1, 2, &[0.0, 1.0]), fv(&[3.0])))
        })
        .level("rest", |l| l.task("reg", tasks::regularize(&x, &fill(2, 0.0))));
    (vars, stack)
}

#[test]
fn display_lists_objectives() {
    let (_, stack) = two_level();
    let s = stack.describe();
    assert!(s.contains("level 0 \"pin\""), "{s}");
    assert!(s.contains("x0=1"), "{s}");
    assert!(s.contains("level 1 \"rest\""), "{s}");
}

/// The report as text.
fn render(report: &misa_wbc::Report<F>) -> String {
    let task = |t: &misa_wbc::TaskReport<F>| misa_wbc::TaskReport {
        name: t.name.clone(),
        eq_residual: t.eq_residual.map(|r| format!("{:9.3e}", r.0)),
        iq_margin: t.iq_margin.map(|k| format!("{:+9.3e}", k.0)),
    };
    let level = |l: &misa_wbc::LevelReport<F>| misa_wbc::LevelReport {
        name: l.name.clone(),
        degraded: l.degraded,
        tasks: l.tasks.iter().map(task).collect(),
    };
    misa_wbc::Report { levels: report.levels.iter().map(level).collect() }.describe()
}

#[test]
fn solve_and_report_achievement() {
    let (_, stack) = two_level();
    let sol = stack.solve(&SolveConfig::default()).unwrap();
    assert_eq!(*sol.status(), SolveStatus::Optimal);
    assert!((sol.x[0].0 - 1.0).abs() < 1e-5);

    let report = sol.report();
    // The pinned equality is achieved…
    let pin = &report.levels[0].tasks[0];
    assert!(pin.eq_residual.unwrap().0 < 1e-5, "pin residual {:?}", pin.eq_residual);
    // …and the inequality has non-negative margin.
    let iq = &report.levels[0].tasks[1];
    assert!(iq.iq_margin.unwrap().0 >= -1e-9, "margin {:?}", iq.iq_margin);
    // A rendering carries the names.
    let text = render(&report);
    assert!(text.contains("x0=1") && text.contains("margin"), "{text}");
}

#[test]
fn stack_matches_raw_solve() {
    let (_, stack) = two_level();
    let via_stack = stack.solve(&SolveConfig::default()).unwrap();
    let raw = solve(&stack.to_tasks(), &SolveConfig::default()).unwrap();
    assert!((dv(&via_stack.x) - dv(&raw.x)).norm() < 1e-12, "stack must be a pure veneer");
}

// The task catalogue.

fn layout(nv: usize, nc: usize, na: usize) -> VarLayout {
    VarLayout::builder().add("qddot", nv).add("f", 3 * nc).add("tau", na).build()
}

#[test]
fn track_and_regularize() {
    let l = layout(2, 0, 2);
    let tau = l.var("tau");
    let t = tasks::regularize(&tau, &fv(&[1.0, -2.0]));
    // A selects the τ block; b = target.
    assert_eq!(t.n_eq(), 2);
    // At x with τ = target the residual is zero.
    let mut x = DVector::zeros(l.n_decision());
    x[l.var("tau").offset()] = 1.0;
    x[l.var("tau").offset() + 1] = -2.0;
    assert!(residual(&t, &x).norm() < 1e-12);
}

#[test]
fn box_bound_is_symmetric_pair() {
    let l = layout(0, 0, 2);
    let tau = l.var("tau");
    let t = tasks::box_bound(&tau, &fv(&[3.0, 5.0]));
    // 2·na inequality rows:  τ ≤ max  and  −τ ≤ max.
    assert_eq!(t.n_iq(), 4);
    // Row set encodes ±I with f = [3,5,3,5].
    let x = DVector::from_vec(vec![3.0, 5.0]);
    let lhs = dm(&t.d) * &x; // [τ ; −τ]
    for i in 0..4 {
        assert!(lhs[i] <= t.f[i].0 + 1e-12, "row {i} violates");
    }
}

#[test]
fn cartesian_acceleration_residual() {
    // 1-D toy: J = [1 0], dj_v = 0.5, accel_ref = 2.0.  q̈=[a,b].
    let l = layout(2, 0, 0);
    let q = l.var("qddot");
    let t = tasks::cartesian_acceleration(&q, &rows(1, 2, &[1.0, 0.0]), &fv(&[0.5]), &fv(&[2.0]));
    // residual = J·q̈ + dj_v − aref = a + 0.5 − 2 = a − 1.5.
    // As Task: a·x = b  →  [1 0]·x = 1.5.
    assert_eq!(t.n_eq(), 1);
    let x = DVector::from_vec(vec![1.5, 9.9]);
    assert!(residual(&t, &x).norm() < 1e-12);
}

fn uniform_cbf(
    n: usize,
    q_min: f64,
    q_max: f64,
    v_max: f64,
    a_max: f64,
    a1: f64,
    a2: f64,
    a3: f64,
) -> JointLimitCbf<F> {
    JointLimitCbf {
        q_min: fill(n, q_min),
        q_max: fill(n, q_max),
        v_max: fill(n, v_max),
        a_max: fill(n, a_max),
        alpha1: fill(n, a1),
        alpha2: fill(n, a2),
        alpha3: fill(n, a3),
    }
}

#[test]
fn joint_limit_cbf_is_loose_far_from_any_limit() {
    // At the neutral midpoint, at rest, well inside every limit: the barrier
    // bounds should reduce to (close to) the plain a_max box.
    let l = layout(2, 0, 0);
    let q = l.var("qddot");
    // v_max=10 kept loose so the a_max clamp is what's actually tested here.
    let limits = uniform_cbf(2, -1.0, 1.0, 10.0, 10.0, 4.0, 4.0, 4.0);
    let pos = fill(2, 0.0); // midpoint
    let vel = fill(2, 0.0);
    let t = tasks::joint_limit_cbf(&q, &pos, &vel, &limits);
    assert_eq!(t.n_iq(), 4); // in_range = le + ge, 2 rows each

    // q̈ = 0 must be feasible (well inside a loose barrier).
    let margin = margins(&t, &DVector::zeros(2));
    for i in 0..4 {
        assert!(margin[i] >= 0.0, "row {i} margin {}", margin[i]);
    }
    // Position-ECBF bound is a1·a2·(q_max-q) = 16, clamped to a_max=10.
    let ub_row0 = t.f[0].0; // le rows come first in Task::in_range
    assert!((ub_row0 - 10.0).abs() < 1e-9, "expected a_max clamp, got {ub_row0}");
}

#[test]
fn joint_limit_cbf_brakes_hard_near_the_upper_limit() {
    // Close to q_max and still moving toward it: the upper bound on q̈ must go
    // negative (demand braking), not just "less positive".
    let l = layout(1, 0, 0);
    let q = l.var("qddot");
    let limits = uniform_cbf(1, -1.0, 1.0, 2.0, 10.0, 4.0, 4.0, 4.0);
    let t = tasks::joint_limit_cbf(&q, &fv(&[0.99]), &fv(&[1.5]), &limits);

    // Upper barrier: -(a1+a2)v + a1a2(qmax-q) = -8*1.5 + 16*0.01 = -11.84,
    // clamped to a_max: still deeply negative → braking is mandatory.
    let ub = t.f[0].0;
    assert!(ub < 0.0, "expected mandatory braking (ub<0), got {ub}");
}

#[test]
fn joint_limit_cbf_respects_velocity_limit_even_mid_range() {
    // Position is safe, but velocity is already at v_max: the 1st-order
    // velocity barrier must cap q̈ at ~0.
    let l = layout(1, 0, 0);
    let q = l.var("qddot");
    let limits = uniform_cbf(1, -10.0, 10.0, 2.0, 10.0, 1.0, 1.0, 4.0);
    let t = tasks::joint_limit_cbf(&q, &fv(&[0.0]), &fv(&[2.0]), &limits);

    // Velocity barrier: alpha3*(v_max - v) = 4*(2-2) = 0.
    let ub = t.f[0].0;
    assert!(ub <= 1e-9, "velocity-at-limit should cap qddot near 0, got {ub}");
}

#[test]
fn joint_limit_cbf_swaps_bounds_when_already_infeasible_rather_than_panicking() {
    // Position already past q_max: the raw upper/lower barrier evaluation can
    // cross. The bounds are swapped so that the interval stays valid.
    let l = layout(1, 0, 0);
    let q = l.var("qddot");
    let limits = uniform_cbf(1, -1.0, 1.0, 2.0, 10.0, 4.0, 4.0, 4.0);
    let t = tasks::joint_limit_cbf(&q, &fv(&[1.5]), &fv(&[3.0]), &limits);
    // Row 0 = ub, row 1 encodes lb as `q ≥ lb` ⇒ f[1] = -lb.
    let (ub, lb) = (t.f[0].0, -t.f[1].0);
    assert!(lb <= ub + 1e-9, "swapped interval should be non-empty: lb={lb} ub={ub}");
}

#[test]
fn friction_pyramid_rows() {
    let l = layout(0, 1, 0);
    let f = l.var("f");
    let t = tasks::friction_pyramid(&f, F(0.5));
    assert_eq!(t.n_iq(), 5);
    // A force inside the cone (fz large, fx/fy small) satisfies C·f ≤ 0.
    let x = DVector::from_vec(vec![0.1, -0.1, 1.0]);
    let lhs = dm(&t.d) * &x;
    for i in 0..5 {
        assert!(lhs[i] <= 1e-12, "inside-cone force violates row {i}: {}", lhs[i]);
    }
    // A pulling force (fz < 0) violates the unilateral row.
    let pull = DVector::from_vec(vec![0.0, 0.0, -1.0]);
    assert!((dm(&t.d) * &pull)[0] > 0.0, "pull should violate unilateral row");
}

#[test]
fn patch_contact_rows() {
    let l = VarLayout::builder().add("w", 6).build();
    let w = l.var("w");
    let patch = ContactPatch {
        mu: F(0.5),
        cop_half: (F(0.10), F(0.05)),
        mu_torsion: F(0.02),
        f_max: F(200.0),
    };
    let t = tasks::patch_contact(&w, &patch);
    assert_eq!(t.n_iq(), 12);

    // A wrench well inside every cone: fz = 100, small everything else.
    //   w = [mx, my, mz, fx, fy, fz]
    let ok = DVector::from_vec(vec![1.0, 2.0, 0.5, 10.0, -10.0, 100.0]);
    let k = margins(&t, &ok);
    assert!(k.min() > 0.0, "inside wrench should have positive margin: {}", k.min());

    // Violations, one row family at a time.
    let pull = DVector::from_vec(vec![0.0, 0.0, 0.0, 0.0, 0.0, -1.0]);
    assert!(margins(&t, &pull).min() < 0.0, "pulling must violate");
    let cap = DVector::from_vec(vec![0.0, 0.0, 0.0, 0.0, 0.0, 300.0]);
    assert!(margins(&t, &cap).min() < 0.0, "f_max must bind");
    let slip = DVector::from_vec(vec![0.0, 0.0, 0.0, 80.0, 0.0, 100.0]);
    assert!(margins(&t, &slip).min() < 0.0, "friction must bind (80 > 0.5·100)");
    let cop = DVector::from_vec(vec![10.0, 0.0, 0.0, 0.0, 0.0, 100.0]);
    assert!(margins(&t, &cop).min() < 0.0, "CoP must bind (10 > 0.05·100)");
    let twist = DVector::from_vec(vec![0.0, 0.0, 5.0, 0.0, 0.0, 100.0]);
    assert!(margins(&t, &twist).min() < 0.0, "torsion must bind (5 > 0.02·100)");
}

#[test]
fn centroidal_momentum_is_cartesian_with_cmm() {
    let l = layout(4, 0, 0);
    let q = l.var("qddot");
    let cmm = DMatrix::from_fn(6, 4, |i, j| ((i + j) as f64 * 0.31).sin());
    let dcmm_v = DVector::from_fn(6, |i, _| i as f64 * 0.1);
    let href = DVector::from_fn(6, |i, _| 1.0 - i as f64 * 0.2);
    let t = tasks::centroidal_momentum(&q, &m(&cmm), &v(&dcmm_v), &v(&href));
    assert_eq!(t.n_eq(), 6);
    // Residual definition: A_G·q̈ = href − dcmm_v.
    let x = DVector::from_vec(vec![0.3, -0.4, 0.5, 0.9]);
    let want = &cmm * &x - (&href - &dcmm_v);
    assert!((residual(&t, &x) - want).norm() < 1e-12);
}

/// The task matches the hand-assembled `M·q̈ − Jcᵀ·f − Sᵀ·τ + h`.
#[test]
fn equation_of_motion_matches_hand_assembly() {
    let (nv, nc, na) = (9, 2, 3);
    let l = layout(nv, nc, na);
    let (q, f, tau) = (l.var("qddot"), l.var("f"), l.var("tau"));

    let mass = DMatrix::<f64>::identity(nv, nv);
    let nle = DVector::from_fn(nv, |i, _| i as f64 * 0.1);
    let jc = DMatrix::from_fn(3 * nc, nv, |i, j| ((i * 3 + j) as f64).sin());

    let t = tasks::equation_of_motion(&q, &f, &tau, &m(&mass), &v(&nle), &m(&jc));
    assert_eq!(t.n_eq(), nv);

    // Hand assembly: A = [M | −Jcᵀ | −S], b = −h, S bottom-na identity.
    let n = l.n_decision();
    let mut a = DMatrix::zeros(nv, n);
    a.view_mut((0, q.offset()), (nv, nv)).copy_from(&mass);
    a.view_mut((0, f.offset()), (nv, 3 * nc)).copy_from(&(-jc.transpose()));
    let n_base = nv - na;
    for i in 0..na {
        a[(n_base + i, tau.offset() + i)] = -1.0;
    }
    let b = -&nle;
    assert!((dm(&t.a) - &a).norm() < 1e-12, "A differs");
    assert!((dv(&t.b) - &b).norm() < 1e-12, "b differs");
}

// A small problem assembled two ways.

/// Toy layout: x = [ qddot(2) ; f(2) ]  (n = 4).
fn problem() -> (DMatrix<f64>, DMatrix<f64>, DVector<f64>, DVector<f64>, DVector<f64>) {
    let a_eom = DMatrix::from_row_slice(2, 2, &[1.0, 0.2, 0.0, 1.0]);
    let b_eom = DMatrix::from_row_slice(2, 2, &[-1.0, 0.0, 0.0, -1.0]);
    let c_eom = DVector::from_vec(vec![0.3, -0.4]);
    let f_max = DVector::from_vec(vec![5.0, 5.0]);
    let qddot_ref = DVector::from_vec(vec![0.1, -0.2]);
    (a_eom, b_eom, c_eom, f_max, qddot_ref)
}

fn assemble_by_hand() -> Vec<Task<F>> {
    let (a_eom, b_eom, c_eom, f_max, qddot_ref) = problem();
    let n = 4;
    // priority 0: EoM equality [A_eom | B_eom]·x = c_eom  +  f ≤ f_max
    let mut eom_a = DMatrix::zeros(2, n);
    eom_a.view_mut((0, 0), (2, 2)).copy_from(&a_eom);
    eom_a.view_mut((0, 2), (2, 2)).copy_from(&b_eom);
    let eom = Task::equality(m(&eom_a), v(&c_eom));

    // f ≤ f_max :  [0 0 | I]·x ≤ f_max
    let mut fmax_d = DMatrix::zeros(2, n);
    fmax_d.view_mut((0, 2), (2, 2)).copy_from(&DMatrix::<f64>::identity(2, 2));
    let fmax = Task::inequality(m(&fmax_d), v(&f_max));

    // priority 1: qddot ≈ qddot_ref :  [I | 0]·x = qddot_ref
    let mut track_a = DMatrix::zeros(2, n);
    track_a.view_mut((0, 0), (2, 2)).copy_from(&DMatrix::<f64>::identity(2, 2));
    let track = Task::equality(m(&track_a), v(&qddot_ref));

    vec![eom + fmax, track]
}

fn assemble_with_affine() -> Vec<Task<F>> {
    let (a_eom, b_eom, c_eom, f_max, qddot_ref) = problem();
    let vars = VarLayout::builder().add("qddot", 2).add("f", 2).build();
    let qddot = vars.var("qddot");
    let f = vars.var("f");

    // EoM residual  e = A_eom·qddot + B_eom·f − c_eom  → 0
    let e = &(&(&m(&a_eom) * &qddot) + &(&m(&b_eom) * &f)) - &v(&c_eom);
    let eom = Task::soft_eq(&e);

    // f ≤ f_max
    let fmax = Task::le(&var_affine(&f), &v(&f_max));

    // qddot ≈ qddot_ref  →  residual (qddot − qddot_ref)
    let track_res = &var_affine(&qddot) - &v(&qddot_ref);
    let track = Task::soft_eq(&track_res);

    vec![eom + fmax, track]
}

#[test]
fn affine_and_hand_assembly_are_identical() {
    let hand = assemble_by_hand();
    let aff = assemble_with_affine();
    assert_eq!(hand.len(), aff.len());
    for (h, a) in hand.iter().zip(aff.iter()) {
        assert!((dm(&h.a) - dm(&a.a)).norm() < 1e-12, "A differs");
        assert!((dv(&h.b) - dv(&a.b)).norm() < 1e-12, "b differs");
        assert!((dm(&h.d) - dm(&a.d)).norm() < 1e-12, "D differs");
        assert!((dv(&h.f) - dv(&a.f)).norm() < 1e-12, "f differs");
    }
}

#[test]
fn affine_and_hand_assembly_solve_identically() {
    let cfg = clarabel_cfg();
    let x_hand = dv(&solve(&assemble_by_hand(), &cfg).unwrap().x);
    let x_aff = dv(&solve(&assemble_with_affine(), &cfg).unwrap().x);
    assert!(
        (&x_hand - &x_aff).norm() < 1e-9,
        "solutions differ: {:?} vs {:?}",
        x_hand,
        x_aff,
    );
    // Sanity: the EoM equality is satisfied and f respects its cap.
    let (a_eom, b_eom, c_eom, f_max, _) = problem();
    let qddot = x_aff.rows(0, 2).into_owned();
    let f = x_aff.rows(2, 2).into_owned();
    assert!((&a_eom * &qddot + &b_eom * &f - &c_eom).norm() < 1e-6, "EoM violated");
    assert!(f[0] <= f_max[0] + 1e-6 && f[1] <= f_max[1] + 1e-6, "f cap violated");
}

// Cross-formulation equivalence.

/// A small consistent floating-base system with coupling, gravity-like h, and
/// one point contact.
fn toy_gravity() -> (usize, usize, DMatrix<f64>, DVector<f64>, DMatrix<f64>) {
    let (nv, na, mass, _, jc) = toy_dynamics();
    let mut h = DVector::zeros(nv);
    h[2] = 9.81;
    h[6] = 0.5;
    h[7] = -0.5;
    (nv, na, mass, h, jc)
}

/// The same physical stack, declared once over whatever formulation the
/// context carries: physics at priority 0, base + force tracking at priority 1,
/// minimum-motion regularisation at priority 2.
fn physical_stack(d: &Dynamics<F>, nv: usize, na: usize, jc: &Matrix<F>) -> Vec<Task<F>> {
    let f = d.forces();
    let dj_v = fill(3, 0.0);

    let mut p0 = tasks::zero_contact_acceleration(d.qddot(), jc, &dj_v)
        + tasks::friction_pyramid(&f, F(0.7))
        + tasks::box_bound(d.tau(), &fill(na, 40.0));
    if let Some(phys) = d.dynamics_task() {
        p0 = phys + p0;
    }

    let mut j_base = DMatrix::zeros(3, nv);
    for i in 0..3 {
        j_base[(i, i)] = 1.0;
    }
    let p1 = tasks::cartesian_acceleration(d.qddot(), &m(&j_base), &fill(3, 0.0), &fill(3, 0.0))
        + tasks::regularize(&f, &fv(&[0.0, 0.0, 5.0]));

    let p2 = tasks::track(d.qddot(), &fill(nv, 0.0)) + tasks::track(d.tau(), &fill(na, 0.0));

    vec![p0, p1, p2]
}

/// All three formulations agree on the physical solution — and each one's
/// extracted triple satisfies the equation of motion.
#[test]
fn formulations_agree_on_the_physical_solution() {
    let (nv, na, mass, h, jc) = toy_gravity();
    let s_t = actuation(nv, na);
    let cfg = clarabel_cfg();

    let mut results = Vec::new();
    for formulation in [Formulation::Explicit, Formulation::AccelSpace, Formulation::ForceSpace] {
        let d = Dynamics::new(formulation, &m(&mass), &v(&h), &m(&jc), na);
        let sol = solve(&physical_stack(&d, nv, na, &m(&jc)), &cfg).expect("solve");
        assert_eq!(sol.status, SolveStatus::Optimal, "{formulation:?} degraded");
        let e = d.extract(&sol.x);
        let (qddot, forces, tau) = (dv(&e.qddot), dv(&e.forces), dv(&e.tau));

        // Physics holds in every formulation.
        let eom = &mass * &qddot + &h - &s_t * &tau - jc.transpose() * &forces;
        assert!(eom.norm() < 1e-5, "{formulation:?}: EoM residual {}", eom.norm());
        // Contact holds still.
        assert!((&jc * &qddot).norm() < 1e-5, "{formulation:?}: contact accelerates");

        results.push((formulation, qddot, forces, tau));
    }

    // Pairwise point-wise agreement of the physical triple.
    for i in 0..results.len() {
        for j in (i + 1)..results.len() {
            let (fa, qa, ffa, ta) = &results[i];
            let (fb, qb, ffb, tb) = &results[j];
            assert!(
                (qa - qb).norm() < 1e-4,
                "q̈ differs: {fa:?} vs {fb:?}: {}",
                (qa - qb).norm()
            );
            assert!((ffa - ffb).norm() < 1e-4, "f differs: {fa:?} vs {fb:?}");
            assert!((ta - tb).norm() < 1e-4, "τ differs: {fa:?} vs {fb:?}");
        }
    }
}

/// `ForceSpace` + `ForceBudgetCascade` reproduces the hand-assembled
/// operational-space QP
///
/// ```text
///   min_x ‖I·x − (a_ref − bias)‖² + ρ‖x‖²   s.t.  C·f ≤ 0
///   I = J·M⁻¹·[Sᵀ Jcᵀ],   bias = J̇v − J·M⁻¹·h
/// ```
///
/// to solver tolerance.
#[test]
fn force_space_budget_matches_hand_built_gid_qp() {
    let (nv, na, mass, h, jc) = toy_gravity();
    let rho = 1e-6;

    let j_task = DMatrix::from_fn(3, nv, |i, j| ((i * 5 + j) as f64 * 0.23).cos());
    let dj_v = DVector::from_vec(vec![0.1, -0.2, 0.3]);
    let aref = DVector::from_vec(vec![1.0, 0.5, -0.7]);

    // through the library
    let d = Dynamics::new(Formulation::ForceSpace, &m(&mass), &v(&h), &m(&jc), na);
    let level = tasks::cartesian_acceleration(d.qddot(), &m(&j_task), &v(&dj_v), &v(&aref))
        + tasks::friction_pyramid(&d.forces(), F(0.7));
    let cfg = SolveConfig {
        strategy: HqpStrategy::ForceBudgetCascade,
        prox_weight: F(rho),
        ..Default::default()
    };
    let ours = dv(&solve(std::slice::from_ref(&level), &cfg).expect("solve").x);

    // by hand, over x = [τ; f]
    let chol = mass.clone().cholesky().unwrap();
    let s_t = actuation(nv, na);
    let minv_st = chol.solve(&s_t);
    let minv_jct = chol.solve(&jc.transpose());
    let minv_h: DVector<f64> = chol.solve(&h);

    let n = na + 3;
    let mut minv_all = DMatrix::zeros(nv, n); // [M⁻¹Sᵀ | M⁻¹Jcᵀ]
    minv_all.columns_mut(0, na).copy_from(&minv_st);
    minv_all.columns_mut(na, 3).copy_from(&minv_jct);
    let i_mat = &j_task * &minv_all; // operational-space inverse inertia
    let bias = &dj_v - &j_task * &minv_h; // J̇v + J·q̈(x=0)

    let target = &aref - &bias;
    let hqp = i_mat.transpose() * &i_mat + DMatrix::identity(n, n) * rho;
    let g = -(i_mat.transpose() * &target);
    // friction pyramid rows on the f block
    let c = DMatrix::from_row_slice(
        5,
        3,
        &[
            0.0, 0.0, -1.0, //
            1.0, 0.0, -0.7, //
            -1.0, 0.0, -0.7, //
            0.0, 1.0, -0.7, //
            0.0, -1.0, -0.7,
        ],
    );
    let mut d_iq = DMatrix::zeros(5, n);
    d_iq.columns_mut(na, 3).copy_from(&c);

    let manual = misa_wbc::solve_qp(
        &m(&hqp),
        &v(&g),
        None,
        None,
        Some(&m(&d_iq)),
        Some(&fill(5, 0.0)),
        None,
        &QpConfig { solver: QpSolver::Clarabel, ..Default::default() },
    );
    assert!(
        (&ours - dv(&manual.x)).norm() < 1e-5,
        "hand-built QP disagrees: {:?} vs {:?}",
        ours,
        manual.x
    );
}

/// The budget cascade is greedy, not lexicographic: a lower level may pull the
/// solution as far as the accumulated constraints allow; the null-space
/// strategy preserves the upper task exactly.
#[test]
fn budget_cascade_is_greedy_null_space_is_strict() {
    // L0: x = 2 with |x| ≤ 3.  L1: x = 10.
    let l0 = Task::equality(rows(1, 1, &[1.0]), fv(&[2.0]))
        + Task::inequality(rows(2, 1, &[1.0, -1.0]), fv(&[3.0, 3.0]));
    let l1 = Task::equality(rows(1, 1, &[1.0]), fv(&[10.0]));
    let levels = vec![l0, l1];

    let budget = SolveConfig { strategy: HqpStrategy::ForceBudgetCascade, ..Default::default() };
    let x_greedy = solve(&levels, &budget).unwrap().x[0].0;
    // Greedy: L1 pulls x from 2 up to the constraint boundary 3.
    assert!((x_greedy - 3.0).abs() < 1e-5, "greedy should hit the bound: {x_greedy}");

    let strict = clarabel_cfg(); // NullSpace
    let x_strict = solve(&levels, &strict).unwrap().x[0].0;
    // Lexicographic: the upper task's optimum x = 2 is preserved.
    assert!((x_strict - 2.0).abs() < 1e-5, "strict should preserve upper: {x_strict}");
}

// Joint limits in closed loop.

/// 1-DOF double integrator (`q̈ = u`) under closed-loop CBF safety + an
/// adversarial tracking task that always asks for maximum acceleration toward
/// `q_max`. Returns the full position and velocity traces.
fn simulate(limits: &JointLimitCbf<F>, ticks: usize, dt: f64) -> (Vec<f64>, Vec<f64>) {
    let vars = VarLayout::builder().add("qddot", 1).build();
    let qddot = vars.var("qddot");

    let mut q = 0.0;
    let mut vel = 0.0;
    let mut trace = vec![q];
    let mut speeds = vec![vel];

    for _ in 0..ticks {
        // Priority 0: the safety barrier, rebuilt from the current state.
        let p0 = tasks::joint_limit_cbf(&qddot, &fv(&[q]), &fv(&[vel]), limits);
        // Priority 1: a runaway controller; only the CBF can stop it.
        let p1 = tasks::regularize(&qddot, &fv(&[1000.0]));

        let sol = solve(&[p0, p1], &clarabel_cfg()).expect("solve");
        assert_eq!(sol.status, SolveStatus::Optimal, "solver degraded mid-simulation");

        let a = sol.x[0].0;
        // Semi-implicit Euler: update v first, then use the new v for q.
        vel += a * dt;
        q += vel * dt;
        trace.push(q);
        speeds.push(vel);
    }
    (trace, speeds)
}

#[test]
fn cbf_keeps_a_runaway_joint_inside_its_position_limit() {
    let limits = uniform_cbf(1, -1.0, 1.0, 5.0, 50.0, 8.0, 8.0, 8.0);
    let (trace, _) = simulate(&limits, 2000, 0.002); // 4 s of simulated motion

    let max_q = trace.iter().cloned().fold(f64::NEG_INFINITY, f64::max);
    assert!(
        max_q <= 1.0 + 1e-3,
        "runaway controller broke through q_max: reached {max_q}, limit 1"
    );

    // A working barrier should also make the joint settle NEAR the limit.
    let final_q = *trace.last().unwrap();
    assert!(
        final_q > 1.0 - 0.05,
        "expected the joint to settle near q_max under constant pressure, got {final_q}"
    );
}

#[test]
fn cbf_keeps_a_runaway_joint_inside_its_velocity_limit() {
    // A much higher position limit (so position never binds) and a tight v_max.
    let limits = uniform_cbf(1, -1000.0, 1000.0, 0.5, 50.0, 8.0, 8.0, 8.0);
    let (_, speeds) = simulate(&limits, 2000, 0.002);
    let max_v = speeds.iter().cloned().fold(0.0_f64, f64::max);
    assert!(
        max_v <= 0.5 + 1e-3,
        "runaway controller broke through v_max: reached {max_v}, limit 0.5"
    );
}

// Randomised checks against closed forms.

// A fixed-seed LCG so the randomised checks are deterministic across runs.
struct Lcg(u64);
impl Lcg {
    fn new(seed: u64) -> Self {
        Lcg(seed)
    }
    fn next_f64(&mut self) -> f64 {
        // Numerical Recipes LCG, mapped to [-1, 1).
        self.0 = self.0.wrapping_mul(6364136223846793005).wrapping_add(1442695040888963407);
        ((self.0 >> 11) as f64 / (1u64 << 53) as f64) * 2.0 - 1.0
    }
    fn matrix(&mut self, r: usize, c: usize) -> DMatrix<f64> {
        DMatrix::from_fn(r, c, |_, _| self.next_f64())
    }
    fn vector(&mut self, n: usize) -> DVector<f64> {
        DVector::from_fn(n, |_, _| self.next_f64())
    }
}

/// For a random single equality task `A·x = b` the solution reaches the same
/// observable `A·x` as the pseudo-inverse reference.
#[test]
fn single_equality_matches_pseudo_inverse() {
    let cfg = clarabel_cfg();
    let mut rng = Lcg::new(0xC0FFEE);
    for _ in 0..20 {
        // Wide (under-determined), square, and tall (over-determined).
        for &(r, c) in &[(2usize, 4usize), (3, 3), (5, 3)] {
            let a = rng.matrix(r, c);
            let b = rng.vector(r);
            let task = Task::equality(m(&a), v(&b));

            let x_hqp = dv(&solve(std::slice::from_ref(&task), &cfg).unwrap().x);
            let x_pinv = a.clone().pseudo_inverse(1e-12).unwrap() * &b;

            // Observable (row-space projection) is the same.
            assert!(
                (&a * &x_hqp - &a * &x_pinv).norm() < 1e-5,
                "HoQP vs pinv observable differ ({r}x{c}): {:?} vs {:?}",
                &a * &x_hqp,
                &a * &x_pinv,
            );
            // Square / tall → also the least-squares residual matches.
            if r >= c {
                let r_hqp = (&a * &x_hqp - &b).norm();
                let r_pinv = (&a * &x_pinv - &b).norm();
                assert!((r_hqp - r_pinv).abs() < 1e-6, "residual norms differ");
            }
        }
    }
}

/// In a two-level equality stack the upper task is preserved exactly and the
/// lower task is solved in the upper's null space.
#[test]
fn two_level_hierarchy_preserves_upper_and_achieves_lower() {
    let cfg = clarabel_cfg();
    let mut rng = Lcg::new(0x1234_5678);
    let n = 5;

    for _ in 0..20 {
        let a1 = rng.matrix(2, n);
        let b1 = rng.vector(2);
        let a2 = rng.matrix(2, n);
        let b2 = rng.vector(2);

        let levels =
            vec![Task::equality(m(&a1), v(&b1)), Task::equality(m(&a2), v(&b2))];
        let x = dv(&solve(&levels, &cfg).unwrap().x);

        // Priority: upper preserved exactly.
        assert!((&a1 * &x - &b1).norm() < 1e-5, "upper task disturbed");
        // Lower reached exactly (it fits in the upper's 3-D null space).
        assert!((&a2 * &x - &b2).norm() < 1e-5, "lower task not achieved");
    }
}

/// A lower task that conflicts with the upper is sacrificed.
#[test]
fn conflicting_lower_yields_to_upper() {
    let cfg = clarabel_cfg();
    let upper = Task::equality(rows(1, 2, &[1.0, 0.0]), fv(&[1.0]));
    let lower = Task::equality(rows(1, 2, &[1.0, 0.0]), fv(&[2.0]));
    let x = solve(&[upper, lower], &cfg).unwrap().x;
    // Upper wins on the conflicted coordinate.
    assert!((x[0].0 - 1.0).abs() < 1e-5, "upper must win: x0 = {}", x[0].0);
}

/// `Task + Task` at one priority level is a weighted least-squares of the
/// concatenation, and `weight` biases which residual wins.
#[test]
fn same_level_sum_and_weight_bias() {
    let cfg = clarabel_cfg();
    let vars = VarLayout::builder().add("x", 1).build();
    let x = vars.var("x");

    // Two conflicting scalar targets at one level: x ≈ 0 and x ≈ 10.
    let to_zero = Task::soft_eq(&(&var_affine(&x) - &fv(&[0.0])));
    let to_ten = Task::soft_eq(&(&var_affine(&x) - &fv(&[10.0])));

    // Equal weight → midpoint 5.
    let mid = solve(&[to_zero.clone() + to_ten.clone()], &cfg).unwrap().x[0].0;
    assert!((mid - 5.0).abs() < 1e-4, "equal-weight midpoint = {mid}");

    // Weight the "ten" target 9× → optimum at 10·9/(1+9) = 9.
    let biased = solve(&[to_zero + to_ten.weight(F(9.0))], &cfg).unwrap().x[0].0;
    assert!((biased - 9.0).abs() < 1e-4, "biased optimum = {biased}");
}

/// An over-constrained inequality stack is absorbed by slack variables rather
/// than failing.
#[test]
fn infeasible_inequalities_absorbed_by_slack() {
    // x ≤ −1  and  x ≥ +1  at one priority level: modelling-infeasible.
    let level = Task::inequality(rows(1, 1, &[1.0]), fv(&[-1.0]))
        + Task::inequality(rows(1, 1, &[-1.0]), fv(&[-1.0]));
    let sol = solve(&[level], &SolveConfig::default()).expect("slack keeps the inner QP feasible");
    assert_eq!(sol.status, SolveStatus::Optimal, "slack should absorb it");
    // The compromise sits between the two bounds (near 0 by symmetry).
    assert!(sol.x[0].0.abs() < 1.0 + 1e-6, "compromise x = {}", sol.x[0].0);
}

/// Run-blocking errors surface as `WbcError`, distinct from a degraded outcome.
#[test]
fn run_blocking_errors() {
    assert_eq!(solve::<F>(&[], &SolveConfig::default()).unwrap_err(), WbcError::NoLevels);
    let mixed: Vec<Task<F>> = vec![
        Task::equality(Matrix::zeros(1, 3), fill(1, 0.0)),
        Task::equality(Matrix::zeros(1, 4), fill(1, 0.0)),
    ];
    assert!(matches!(
        solve(&mixed, &SolveConfig::default()).unwrap_err(),
        WbcError::DimMismatch { level: 1, .. },
    ));
}

/// The two backends must agree on a well-posed problem.
#[test]
fn backends_agree() {
    let mut rng = Lcg::new(0xABCD);
    for _ in 0..10 {
        // Over-determined → unique least-squares solution, so both backends
        // must land on the same x (not just the same A·x).
        let a = rng.matrix(4, 2);
        let b = rng.vector(4);
        let levels = vec![Task::equality(m(&a), v(&b))];
        let x_clara = dv(&solve(
            &levels,
            &SolveConfig { backend: QpSolver::Clarabel, ..Default::default() },
        )
        .unwrap()
        .x);
        let x_as = dv(&solve(
            &levels,
            &SolveConfig { backend: QpSolver::ActiveSet, ..Default::default() },
        )
        .unwrap()
        .x);
        assert!(
            (&x_clara - &x_as).norm() < 1e-4,
            "backends differ: {:?} vs {:?}",
            x_clara,
            x_as,
        );
    }
}

/// The default strategy is the null-space cascade.
#[test]
fn default_strategy_is_null_space() {
    assert_eq!(SolveConfig::<F>::default().strategy, HqpStrategy::NullSpace);
}

// The whole assembled.

/// A tiny consistent floating-base system: nv = 8 (6 base + 2 actuated), one
/// 3-D point contact, na = 2. `M = I`, gravity-only `h`.
fn toy_system() -> (usize, usize, usize, DMatrix<f64>, DVector<f64>, DMatrix<f64>) {
    let (nv, nc, na) = (8usize, 1usize, 2usize);
    let mass = DMatrix::<f64>::identity(nv, nv);
    // gravity term on the base z row and both joints.
    let mut h = DVector::zeros(nv);
    h[2] = 9.81; // base vertical
    h[6] = 0.5;
    h[7] = -0.5;
    // contact linear Jacobian: identity on the base translation block, small
    // coupling to the joints.
    let mut jc = DMatrix::zeros(3 * nc, nv);
    for i in 0..3 {
        jc[(i, i)] = 1.0;
    }
    jc[(0, 6)] = 0.1;
    jc[(1, 7)] = 0.1;
    (nv, nc, na, mass, h, jc)
}

#[test]
fn assembled_stack_solves_and_satisfies_physics() {
    let (nv, nc, na, mass, h, jc) = toy_system();
    let vars = layout(nv, nc, na);
    let q = vars.var("qddot");
    let f = vars.var("f");
    let tau = vars.var("tau");

    // dj_v = 0 (rest instant).
    let dj_v = fill(3 * nc, 0.0);

    // Priority 0 (hard physics): EoM + stance contact holds still + friction
    // cone + torque limits.
    let p0 = tasks::equation_of_motion(&q, &f, &tau, &m(&mass), &v(&h), &m(&jc))
        + tasks::zero_contact_acceleration(&q, &m(&jc), &dj_v)
        + tasks::friction_pyramid(&f, F(0.7))
        + tasks::box_bound(&tau, &fv(&[40.0, 40.0]));

    // Priority 1 (soft tracking): hold base still, and keep the contact force
    // near a nominal downward push.
    let mut j_base = DMatrix::zeros(3, nv);
    for i in 0..3 {
        j_base[(i, i)] = 1.0;
    }
    let p1 = tasks::cartesian_acceleration(&q, &m(&j_base), &fill(3, 0.0), &fill(3, 0.0))
        + tasks::regularize(&f, &fv(&[0.0, 0.0, 5.0]));

    let sol = solve(&[p0, p1], &SolveConfig::default()).expect("solve");
    assert_eq!(sol.status, SolveStatus::Optimal);

    let x = &sol.x;
    let qddot = dv(&q.extract(x));
    let force = dv(&f.extract(x));
    let torque = dv(&tau.extract(x));

    // 1. EoM holds:  M·q̈ − Jcᵀ·f − Sᵀ·τ + h ≈ 0.
    let s_t = actuation(nv, na);
    let eom = &mass * &qddot - jc.transpose() * &force - &s_t * &torque + &h;
    assert!(eom.norm() < 1e-5, "EoM violated: {}", eom.norm());

    // 2. Stance foot doesn't accelerate:  Jc·q̈ ≈ 0.
    assert!((&jc * &qddot).norm() < 1e-5, "contact accelerates");

    // 3. Friction cone respected:  |fx|,|fy| ≤ μ·fz, fz ≥ 0.
    assert!(force[2] >= -1e-6, "pulling force");
    assert!(force[0].abs() <= 0.7 * force[2] + 1e-5, "fx outside cone");
    assert!(force[1].abs() <= 0.7 * force[2] + 1e-5, "fy outside cone");

    // 4. Torque within limits.
    assert!(torque[0].abs() <= 40.0 + 1e-5 && torque[1].abs() <= 40.0 + 1e-5);
}
