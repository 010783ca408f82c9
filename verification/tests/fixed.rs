//! The library on its own fixed-point number: exact expected values.

use misa_wbc::active_start::{initial_feasible, push_into_iq_feasible};
use misa_wbc::conic::{
    conic_problem, conic_solution, dense_to_csc_full, dense_to_csc_upper, status_of,
};
use misa_wbc::dense::{amax, dot, norm, norm_sq, slice, stack_vec, vadd, vfill, vmin, vneg, vsub};
use misa_wbc::elimination::{chol_factor, jordan_solve, kernel};
use misa_wbc::factor::ActiveFactor;
use misa_wbc::fixed::{Fixed, ONE};
use misa_wbc::ipm::{fraction_to_boundary, solve_reduced_kkt, weighted_normal_eq};
use misa_wbc::kernels::{lu_vec, Backend, Cone, ConicReply, ConicStatus};
use misa_wbc::qp::{objective, QpProblem};
use misa_wbc::refgen::{impedance, pd, pd_ff, vel};
use misa_wbc::scalar::{clamp, Scalar};
use misa_wbc::tasks::{
    actuation, box_bound, cartesian_acceleration, friction_pyramid, joint_bounds, patch_contact,
    track, zero_contact_acceleration, ContactPatch, JointLimit,
};
use misa_wbc::text::{decimal, pad_left, pad_right};
use misa_wbc::triangular::{backward, chol_solve, chol_solve_mat, forward};
use misa_wbc::{
    solve_qp, solve_qp_warm, Affine, Dynamics, Formulation, Matrix, QpConfig, QpSolver, QpStatus,
    QpWorkspace, Task, VarLayout,
};

/// `m * 10^e`.
fn d(m: i64, e: i32) -> Fixed {
    Fixed::dec(m, e)
}

fn k(n: i64) -> Fixed {
    d(n, 0)
}

fn ks(v: &[i64]) -> Vec<Fixed> {
    v.iter().map(|n| k(*n)).collect()
}

fn mat(r: usize, c: usize, v: &[i64]) -> Matrix<Fixed> {
    Matrix::from_row_slice(r, c, &ks(v))
}

fn entries(a: &Matrix<Fixed>) -> Vec<Fixed> {
    (0..a.nrows()).flat_map(|i| (0..a.ncols()).map(move |j| (i, j))).map(|(i, j)| a.at(i, j)).collect()
}

/// Equal up to the rounding of a few operations.
fn near(a: Fixed, b: Fixed) -> bool {
    a.minus(b).magnitude().at_most(d(1, -7))
}

fn all_near(a: &[Fixed], b: &[Fixed]) -> bool {
    a.len() == b.len() && (0..a.len()).all(|i| near(a[i], b[i]))
}

/// Tolerances that nine decimals can resolve.
fn cfg() -> QpConfig<Fixed> {
    QpConfig {
        solver: QpSolver::ActiveSet,
        max_iters: 50,
        feasibility_tol: d(1, -6),
        optimality_tol: d(1, -6),
        prox_weight: k(0),
    }
}

// Arithmetic.

#[test]
fn fixed_arithmetic() {
    assert_eq!(k(1).units, ONE);
    assert_eq!(d(15, -1).times(d(225, -2)), d(3375, -3));
    assert_eq!(k(1).over(k(3)).units, 333_333_333);
    assert_eq!(k(-1).over(k(3)).units, -333_333_333);
    assert_eq!(d(12345, -12).units, 12);
    assert_eq!(d(-12345, -12).units, -12);
    assert_eq!(k(2).root().units, 1_414_213_562);
    assert_eq!(k(-4).root(), k(0));
    assert_eq!(k(3).hypotenuse(k(4)), k(5));
    assert_eq!(Fixed::of_count(7), k(7));
    assert_eq!(k(-2).magnitude(), k(2));
    assert_eq!(k(-2).negated(), k(2));
    assert_eq!(k(-2).larger(k(1)), k(1));
    assert_eq!(k(-2).smaller(k(1)), k(-2));
    assert!(k(1).less_than(k(2)) && !k(2).less_than(k(2)) && k(2).at_most(k(2)));
}

#[test]
fn fixed_saturates() {
    let top = Fixed { units: i64::MAX };
    let low = Fixed { units: i64::MIN };
    assert_eq!(top.plus(k(1)), top);
    assert_eq!(low.minus(k(1)), low);
    assert_eq!(low.negated(), top);
    assert_eq!(low.magnitude(), top);
    assert_eq!(top.times(k(2)), top);
    assert_eq!(k(1).over(k(0)), top);
    assert_eq!(k(-1).over(k(0)), low);
    assert_eq!(k(0).over(k(0)), k(0));
    assert_eq!(d(1, 300), top);
    assert_eq!(d(1, -300), k(0));
}

#[test]
fn clamp_forces_into_the_interval() {
    assert_eq!(clamp(k(5), k(0), k(1)), k(1));
    assert_eq!(clamp(k(-5), k(0), k(1)), k(0));
    assert_eq!(clamp(d(5, -1), k(0), k(1)), d(5, -1));
}

// Vectors and matrices.

#[test]
fn vector_operations() {
    let (a, b) = (ks(&[1, -2, 3]), ks(&[4, 5, 6]));
    assert_eq!(vadd(&a, &b), ks(&[5, 3, 9]));
    assert_eq!(vsub(&a, &b), ks(&[-3, -7, -3]));
    assert_eq!(vneg(&a), ks(&[-1, 2, -3]));
    assert_eq!(dot(&a, &b), k(12));
    assert_eq!(norm_sq(&a), k(14));
    assert_eq!(norm(&ks(&[3, 4])), k(5));
    assert_eq!(amax(&a), k(3));
    assert_eq!(amax(&ks(&[])), k(0));
    assert_eq!(vmin(&a), k(-2));
    assert_eq!(slice(&b, 1, 2), ks(&[5, 6]));
    assert_eq!(stack_vec(&a, &b), ks(&[1, -2, 3, 4, 5, 6]));
    assert_eq!(vfill(2, k(9)), ks(&[9, 9]));
}

#[test]
fn matrix_operations() {
    let a = mat(2, 2, &[1, 2, 3, 4]);
    let b = mat(2, 2, &[5, 6, 7, 8]);
    assert_eq!(entries(&a.mmul(&b)), ks(&[19, 22, 43, 50]));
    assert_eq!(entries(&a.transpose()), ks(&[1, 3, 2, 4]));
    assert_eq!(a.apply(&ks(&[1, 1])), ks(&[3, 7]));
    assert_eq!(entries(&a.madd(&b)), ks(&[6, 8, 10, 12]));
    assert_eq!(entries(&b.msub(&a)), ks(&[4, 4, 4, 4]));
    assert_eq!(entries(&a.mneg()), ks(&[-1, -2, -3, -4]));
    assert_eq!(entries(&a.mscale(k(2))), ks(&[2, 4, 6, 8]));
    assert_eq!(entries(&a.stack_rows(&b)), ks(&[1, 2, 3, 4, 5, 6, 7, 8]));
    assert_eq!(entries(&a.row_range(1, 1)), ks(&[3, 4]));
    assert_eq!(entries(&a.place(1, 4)), ks(&[0, 1, 2, 0, 0, 3, 4, 0]));
    assert_eq!(entries(&a.shift_diag(k(10))), ks(&[11, 2, 3, 14]));
    assert_eq!(entries(&Matrix::<Fixed>::identity(2)), ks(&[1, 0, 0, 1]));
    assert_eq!(a.col(1), ks(&[2, 4]));
    assert_eq!(a.row(1), ks(&[3, 4]));
}

// Factorisations.

#[test]
fn cholesky_by_rows() {
    let l = chol_factor(&mat(2, 2, &[4, 2, 2, 5])).unwrap();
    assert_eq!(entries(&l), ks(&[2, 0, 1, 2]));
    assert!(chol_factor(&mat(2, 2, &[1, 2, 2, 1])).is_none());
    assert!(chol_factor(&mat(1, 1, &[0])).is_none());
    assert_eq!(chol_factor(&Matrix::<Fixed>::zeros(0, 0)).unwrap().nrows(), 0);
}

#[test]
fn elimination_solves_with_pivoting() {
    let x = jordan_solve(&mat(2, 2, &[0, 1, 2, 1]), &mat(2, 1, &[3, 5])).unwrap();
    assert_eq!(entries(&x), ks(&[1, 3]));
    assert!(jordan_solve(&mat(2, 2, &[1, 2, 2, 4]), &mat(2, 1, &[1, 1])).is_none());
    assert_eq!(lu_vec(&mat(2, 2, &[2, 0, 0, 4]), &ks(&[6, 8])).unwrap(), ks(&[3, 2]));
}

#[test]
fn kernel_spans_the_null_space() {
    let z = kernel(&mat(1, 3, &[1, 1, 2]));
    assert_eq!((z.nrows(), z.ncols()), (3, 2));
    assert_eq!(entries(&z), ks(&[-1, -2, 1, 0, 0, 1]));
    let full = kernel(&mat(2, 2, &[1, 0, 0, 1]));
    assert_eq!((full.nrows(), full.ncols()), (2, 0));
    let free = kernel(&Matrix::<Fixed>::zeros(0, 2));
    assert_eq!(entries(&free), ks(&[1, 0, 0, 1]));
}

#[test]
fn triangular_substitution() {
    let l = vec![ks(&[2]), ks(&[1, 2])];
    assert_eq!(forward(&l, &ks(&[4, 6])), ks(&[2, 2]));
    assert_eq!(backward(&l, &ks(&[4, 2])), vec![d(15, -1), k(1)]);
    // L L' = [4 2; 2 5]
    assert_eq!(chol_solve(&l, &ks(&[8, 12])), ks(&[1, 2]));
    assert_eq!(entries(&chol_solve_mat(&l, &mat(2, 2, &[4, 2, 2, 5]))), ks(&[1, 0, 0, 1]));
}

#[test]
fn conic_kernel_is_absent() {
    let p = QpProblem {
        h: &mat(1, 1, &[2]),
        c: &ks(&[1]),
        ae: Matrix::zeros(0, 1),
        be: ks(&[]),
        ai: Matrix::zeros(0, 1),
        bi: ks(&[]),
    };
    let r = Fixed::conic(&conic_problem(&p, &cfg()));
    assert_eq!(r.status, ConicStatus::Other);
    let sol = solve_qp(
        &mat(1, 1, &[2]),
        &ks(&[1]),
        None,
        None,
        None,
        None,
        None,
        &QpConfig { solver: QpSolver::Clarabel, ..cfg() },
    );
    assert_eq!(sol.status, QpStatus::NumericalFailure);
}

// The factor of active rows.

#[test]
fn active_factor_push_remove_solve() {
    // H = I, so y = a and S = A A'.
    let chol = vec![ks(&[1]), ks(&[0, 1])];
    let mut f = ActiveFactor::with_capacity(2);
    assert_eq!(f.len(), 0);
    assert!(f.try_push(ks(&[1, 0]), &chol));
    assert!(f.try_push(ks(&[1, 1]), &chol));
    // A third row of the plane depends on the two.
    assert!(!f.try_push(ks(&[3, -2]), &chol));
    assert_eq!(f.len(), 2);
    assert_eq!(f.dot_rows(&ks(&[5, 7])), ks(&[5, 12]));
    // S = [1 1; 1 2]; S nu = (2, 3) has nu = (1, 1).
    assert_eq!(f.solve_schur(&ks(&[2, 3])), ks(&[1, 1]));
    // h_inv_r - nu_0 y_0 - nu_1 y_1
    assert_eq!(f.project(&ks(&[3, 3]), &ks(&[2, 4])), ks(&[-3, -1]));
    f.remove(0);
    assert_eq!(f.len(), 1);
    assert_eq!(f.dot_rows(&ks(&[5, 7])), ks(&[12]));
    // S = [2] is left.
    assert!(near(f.solve_schur(&ks(&[3]))[0], d(15, -1)));
}

// The solvers.

#[test]
fn active_set_with_active_bounds() {
    let (h, c) = (mat(2, 2, &[1, 0, 0, 1]), ks(&[-2, -3]));
    let (a, b) = (mat(2, 2, &[1, 0, 0, 1]), ks(&[1, 1]));
    let sol = solve_qp(&h, &c, None, None, Some(&a), Some(&b), None, &cfg());
    assert_eq!(sol.status, QpStatus::Optimal);
    assert!(all_near(&sol.x, &ks(&[1, 1])));
    assert!(all_near(&sol.lambda_iq, &ks(&[1, 2])));
    assert!(near(sol.objective, k(-4)));
}

#[test]
fn multipliers_vanish_outside_the_working_set() {
    let (h, c) = (mat(2, 2, &[1, 0, 0, 1]), ks(&[-2, -3]));
    let (a, b) = (mat(2, 2, &[1, 0, 0, 1]), ks(&[1, 9]));
    let sol = solve_qp(&h, &c, None, None, Some(&a), Some(&b), None, &cfg());
    assert_eq!(sol.x, ks(&[1, 3]));
    assert_eq!(sol.lambda_iq, ks(&[1, 0]));
}

#[test]
fn repeated_solve_takes_no_iteration() {
    let (h, c) = (mat(2, 2, &[1, 0, 0, 1]), ks(&[-2, -3]));
    let (a, b) = (mat(2, 2, &[1, 0, 0, 1]), ks(&[1, 1]));
    let mut ws = QpWorkspace::new();
    let go = |ws: &mut QpWorkspace<Fixed>| {
        solve_qp_warm(&h, &c, None, None, Some(&a), Some(&b), None, &cfg(), ws)
    };
    let first = go(&mut ws);
    assert!(first.iterations > 0);
    let second = go(&mut ws);
    assert_eq!(second.iterations, 0);
    assert_eq!(second.x, first.x);
    assert_eq!(second.lambda_iq, first.lambda_iq);
    ws.clear();
    assert_eq!(go(&mut ws).iterations, first.iterations);
}

#[test]
fn iteration_limit_is_reported() {
    let (h, c) = (mat(1, 1, &[1]), ks(&[-2]));
    for solver in [QpSolver::ActiveSet, QpSolver::Ipm, QpSolver::Admm] {
        let tight = QpConfig { solver, max_iters: 0, ..cfg() };
        let sol = solve_qp(
            &h,
            &c,
            None,
            None,
            Some(&mat(1, 1, &[1])),
            Some(&ks(&[1])),
            None,
            &tight,
        );
        assert_eq!(sol.status, QpStatus::MaxIterations);
        assert_eq!(sol.iterations, 0);
    }
}

#[test]
fn infeasible_start_is_reported() {
    let sol = solve_qp(
        &mat(1, 1, &[1]),
        &ks(&[0]),
        None,
        None,
        Some(&mat(1, 1, &[1])),
        Some(&ks(&[1])),
        Some(&ks(&[5])),
        &cfg(),
    );
    assert_eq!(sol.status, QpStatus::Infeasible);
    assert_eq!(sol.x, ks(&[0]));
    assert_eq!(sol.objective, k(0));
    assert_eq!(sol.lambda_iq, ks(&[0]));
}

#[test]
fn dependent_equalities_are_a_numerical_failure() {
    let sol = solve_qp(
        &mat(2, 2, &[1, 0, 0, 1]),
        &ks(&[0, 0]),
        Some(&mat(2, 2, &[1, 0, 2, 0])),
        Some(&ks(&[0, 0])),
        None,
        None,
        Some(&ks(&[0, 3])),
        &cfg(),
    );
    assert_eq!(sol.status, QpStatus::NumericalFailure);
    assert_eq!(sol.iterations, 0);
    assert_eq!(sol.x, ks(&[0, 3]));
}

#[test]
fn equality_problem_by_every_built_in_solver() {
    // min 1/2 |x|^2 with x0 + x1 = 4
    let (h, c) = (mat(2, 2, &[1, 0, 0, 1]), ks(&[0, 0]));
    for solver in [QpSolver::ActiveSet, QpSolver::Ipm] {
        let sol = solve_qp(
            &h,
            &c,
            Some(&mat(1, 2, &[1, 1])),
            Some(&ks(&[4])),
            None,
            None,
            None,
            &QpConfig { solver, ..cfg() },
        );
        assert_eq!(sol.status, QpStatus::Optimal);
        assert_eq!(sol.x, ks(&[2, 2]));
        assert_eq!(sol.lambda_eq, ks(&[-2]));
    }
}

#[test]
fn unconstrained_splitting_is_one_solve() {
    let sol = solve_qp(
        &mat(1, 1, &[4]),
        &ks(&[-8]),
        None,
        None,
        None,
        None,
        None,
        &QpConfig { solver: QpSolver::Admm, ..cfg() },
    );
    assert_eq!(sol.status, QpStatus::Optimal);
    assert_eq!(sol.iterations, 0);
    assert_eq!(sol.x, ks(&[2]));
}

#[test]
fn proximal_term_pulls_and_objective_stays_the_stated_one() {
    // min 1/2 x^2 - 4x + 1/2 (x - 0)^2: x = 2; stated cost 2 - 8 = -6.
    let sol = solve_qp(
        &mat(1, 1, &[1]),
        &ks(&[-4]),
        None,
        None,
        None,
        None,
        Some(&ks(&[0])),
        &QpConfig { prox_weight: k(1), ..cfg() },
    );
    assert_eq!(sol.x, ks(&[2]));
    assert_eq!(sol.objective, k(-6));
    assert_eq!(objective(&mat(1, 1, &[1]), &ks(&[-4]), &sol.x), k(-6));
}

#[test]
fn first_point_meets_the_equalities() {
    let (h, c) = (mat(2, 2, &[1, 0, 0, 1]), ks(&[0, 0]));
    let q = QpProblem {
        h: &h,
        c: &c,
        ae: mat(1, 2, &[1, 1]),
        be: ks(&[4]),
        ai: mat(1, 2, &[1, 0]),
        bi: ks(&[1]),
    };
    // The least-norm point (2, 2) breaks x0 <= 1 and is pushed along x0 + x1 = 4.
    assert_eq!(initial_feasible(&q, &cfg()), ks(&[1, 3]));
    let mut x = ks(&[4, 0]);
    assert!(push_into_iq_feasible(&mut x, &q, &cfg()));
    assert_eq!(x, ks(&[1, 3]));
}

#[test]
fn no_way_into_the_inequalities() {
    let (h, c) = (mat(1, 1, &[1]), ks(&[0]));
    let q = QpProblem {
        h: &h,
        c: &c,
        ae: mat(1, 1, &[1]),
        be: ks(&[2]),
        ai: mat(1, 1, &[1]),
        bi: ks(&[1]),
    };
    let mut x = ks(&[2]);
    assert!(!push_into_iq_feasible(&mut x, &q, &cfg()));
    assert_eq!(x, ks(&[2]));
}

#[test]
fn interior_point_pieces() {
    let tau = d(995, -3);
    assert_eq!(fraction_to_boundary(&ks(&[1, 2]), &ks(&[-2, 1]), tau), d(4975, -4));
    assert_eq!(fraction_to_boundary(&ks(&[1, 2]), &ks(&[0, 1]), tau), k(1));
    assert_eq!(fraction_to_boundary(&ks(&[4]), &ks(&[-1]), tau), k(1));
    // A' diag(2, 3) A
    let w = weighted_normal_eq(&mat(2, 2, &[1, 1, 0, 2]), &ks(&[2, 3]));
    assert_eq!(entries(&w), ks(&[2, 2, 2, 14]));
    // [I A'; A 0] [dx; dy] = [rx; ry]
    let (dx, dy) =
        solve_reduced_kkt(&mat(2, 2, &[1, 0, 0, 1]), &mat(1, 2, &[1, 1]), &ks(&[1, 3]), &ks(&[2]))
            .unwrap();
    assert_eq!((dx, dy), (ks(&[0, 2]), ks(&[1])));
    // Dependent equalities leave a singular Schur complement.
    assert!(solve_reduced_kkt(
        &mat(2, 2, &[1, 0, 0, 1]),
        &mat(2, 2, &[1, 0, 1, 0]),
        &ks(&[1, 3]),
        &ks(&[2, 2])
    )
    .is_none());
}

// The conic problem.

#[test]
fn compressed_columns() {
    let m = mat(2, 2, &[1, 2, 0, 3]);
    let full = dense_to_csc_full(&m);
    assert_eq!(full.col_ptr, vec![0, 1, 3]);
    assert_eq!(full.row_idx, vec![0, 0, 1]);
    assert_eq!(full.vals, ks(&[1, 2, 3]));
    let upper = dense_to_csc_upper(&mat(2, 2, &[1, 2, 9, 3]));
    assert_eq!(upper.col_ptr, vec![0, 1, 3]);
    assert_eq!(upper.row_idx, vec![0, 0, 1]);
    assert_eq!(upper.vals, ks(&[1, 2, 3]));
}

#[test]
fn conic_problem_and_reply() {
    let (h, c) = (mat(1, 1, &[2]), ks(&[1]));
    let q = QpProblem {
        h: &h,
        c: &c,
        ae: mat(1, 1, &[1]),
        be: ks(&[4]),
        ai: mat(2, 1, &[3, 5]),
        bi: ks(&[6, 7]),
    };
    let p = conic_problem(&q, &cfg());
    assert_eq!(p.cones, vec![Cone::Zero(1), Cone::Nonnegative(2)]);
    assert_eq!(p.b, ks(&[4, 6, 7]));
    assert_eq!(p.a.vals, ks(&[1, 3, 5]));
    assert_eq!(p.max_iter, 50);
    let reply = ConicReply {
        status: ConicStatus::AlmostSolved,
        x: ks(&[3]),
        z: ks(&[-1, -2, 8]),
        iterations: 12,
    };
    let sol = conic_solution(&q, reply);
    assert_eq!(sol.status, QpStatus::Optimal);
    assert_eq!(sol.lambda_eq, ks(&[-1]));
    assert_eq!(sol.lambda_iq, ks(&[0, 8]));
    assert_eq!(sol.objective, k(12));
    assert_eq!(sol.iterations, 12);
}

#[test]
fn conic_outcomes() {
    assert_eq!(status_of(ConicStatus::Solved), QpStatus::Optimal);
    assert_eq!(status_of(ConicStatus::MaxIterations), QpStatus::MaxIterations);
    assert_eq!(status_of(ConicStatus::PrimalInfeasible), QpStatus::Infeasible);
    assert_eq!(status_of(ConicStatus::DualInfeasible), QpStatus::Infeasible);
    assert_eq!(status_of(ConicStatus::AlmostPrimalInfeasible), QpStatus::Infeasible);
    assert_eq!(status_of(ConicStatus::AlmostDualInfeasible), QpStatus::Infeasible);
    assert_eq!(status_of(ConicStatus::Other), QpStatus::NumericalFailure);
}

// Variables and expressions.

#[test]
fn layout_blocks_are_contiguous() {
    let l = VarLayout::builder().add("a", 2).add("none", 0).add("b", 3).build();
    assert_eq!(l.n_decision(), 5);
    assert_eq!(l.names(), vec!["a", "none", "b"]);
    assert_eq!((l.var("a").offset(), l.var("a").size()), (0, 2));
    assert_eq!((l.var("none").offset(), l.var("none").size()), (2, 0));
    assert_eq!((l.var("b").offset(), l.var("b").size()), (2, 3));
    assert_eq!(l.var("b").extract(&ks(&[1, 2, 3, 4, 5])), ks(&[3, 4, 5]));
    assert_eq!(l.var("a").extract(&ks(&[1, 2])), ks(&[1, 2]));
    assert_eq!(l.var("b").extract(&ks(&[1, 2, 3, 4, 5, 6])), ks(&[3, 4, 5]));
    assert!(l.try_var("c").is_none());
}

#[test]
fn evaluation_respects_the_operators() {
    let l = VarLayout::builder().add("a", 2).add("b", 2).build();
    let (a, b): (Affine<Fixed>, Affine<Fixed>) = (l.var("a").affine(), l.var("b").affine());
    let x = ks(&[1, 2, 3, 4]);
    let c = mat(1, 2, &[10, 1]);
    assert_eq!(a.eval(&x), ks(&[1, 2]));
    assert_eq!(a.sum(&b).eval(&x), ks(&[4, 6]));
    assert_eq!(a.difference(&b).eval(&x), ks(&[-2, -2]));
    assert_eq!(a.opposite().eval(&x), ks(&[-1, -2]));
    assert_eq!(a.plus_vec(&ks(&[5, 5])).eval(&x), ks(&[6, 7]));
    assert_eq!(a.minus_vec(&ks(&[5, 5])).eval(&x), ks(&[-4, -3]));
    assert_eq!(Affine::coef_var(&c, &l.var("b")).eval(&x), ks(&[34]));
    assert_eq!(Affine::coef_affine(&c, &a.sum(&b)).eval(&x), ks(&[46]));
    assert_eq!(Affine::constant(ks(&[7]), 4).eval(&x), ks(&[7]));
}

// Tasks.

/// The equality residual.
fn residual(t: &Task<Fixed>, x: &[i64]) -> Vec<Fixed> {
    vsub(&t.a.apply(&ks(x)), &t.b)
}

fn cost(t: &Task<Fixed>, x: &[i64]) -> Fixed {
    norm_sq(&residual(t, x))
}

fn kept(t: &Task<Fixed>, x: &[i64]) -> bool {
    let y = t.d.apply(&ks(x));
    (0..y.len()).all(|i| y[i].at_most(t.f[i]))
}

fn plain(n: usize) -> Affine<Fixed> {
    Affine::new(Matrix::identity(n), vec![k(0); n])
}

#[test]
fn bounds_are_kept_exactly_inside() {
    let e = plain(1);
    assert!(kept(&Task::le(&e, &ks(&[2])), &[2]) && !kept(&Task::le(&e, &ks(&[2])), &[3]));
    assert!(kept(&Task::ge(&e, &ks(&[2])), &[2]) && !kept(&Task::ge(&e, &ks(&[2])), &[1]));
    let r = Task::in_range(&ks(&[-1]), &e, &ks(&[2]));
    assert!(kept(&r, &[-1]) && kept(&r, &[2]) && !kept(&r, &[-2]) && !kept(&r, &[3]));
    let b = box_bound(&e, &ks(&[2]));
    assert!(kept(&b, &[-2]) && kept(&b, &[2]) && !kept(&b, &[3]) && !kept(&b, &[-3]));
}

#[test]
fn sums_add_costs_and_weights_multiply_them() {
    let e = plain(2);
    let a = track(&e, &ks(&[1, 1]));
    let b = Task::equality(mat(1, 2, &[1, 1]), ks(&[0]));
    assert_eq!(residual(&a, &[3, 1]), ks(&[2, 0]));
    assert_eq!(cost(&a, &[3, 1]), k(4));
    assert_eq!(cost(&b, &[3, 1]), k(16));
    assert_eq!(cost(&a.plus(&b), &[3, 1]), k(20));
    assert_eq!(cost(&a.weight(k(9)), &[3, 1]), k(36));
    assert_eq!(residual(&a, &[1, 1]), ks(&[0, 0]));
    let both = Task::le(&e, &ks(&[1, 1])).plus(&Task::ge(&e, &ks(&[0, 0])));
    assert!(kept(&both, &[1, 0]) && !kept(&both, &[2, 0]) && !kept(&both, &[-1, 0]));
    let none: Task<Fixed> = Task::empty(2);
    let same = none.plus(&a).plus(&none);
    assert_eq!(entries(&same.a), entries(&a.a));
    assert_eq!(same.b, a.b);
    assert_eq!((same.n_eq(), same.n_iq(), same.n_decision()), (2, 0, 2));
}

#[test]
fn cartesian_residual_is_the_missing_acceleration() {
    let t = cartesian_acceleration(&plain(2), &mat(1, 2, &[2, 3]), &ks(&[4]), &ks(&[10]));
    assert_eq!(residual(&t, &[1, 1]), ks(&[-1]));
    let still = zero_contact_acceleration(&plain(2), &mat(1, 2, &[2, 3]), &ks(&[4]));
    assert_eq!(residual(&still, &[1, 1]), ks(&[9]));
}

#[test]
fn friction_and_patch_limits() {
    let f = friction_pyramid(&plain(3), d(5, -1));
    assert!(kept(&f, &[1, -1, 2]) && !kept(&f, &[2, 0, 2]) && !kept(&f, &[0, 0, -1]));
    let p = ContactPatch {
        mu: d(5, -1),
        cop_half: (d(1, -1), d(2, -1)),
        mu_torsion: d(1, -2),
        f_max: k(100),
    };
    let t = patch_contact(&plain(6), &p);
    // |my| <= 0.1 fz, |mx| <= 0.2 fz, |mz| <= 0.01 fz
    assert!(kept(&t, &[20, 10, 1, 50, -50, 100]));
    assert!(!kept(&t, &[21, 10, 1, 50, -50, 100]));
    assert!(!kept(&t, &[20, 11, 1, 50, -50, 100]));
    assert!(!kept(&t, &[20, 10, 2, 50, -50, 100]));
    assert!(!kept(&t, &[0, 0, 0, 0, 0, 101]));
    assert!(!kept(&t, &[0, 0, 0, 0, 0, -1]));
}

#[test]
fn barrier_interval_is_never_empty() {
    let j = JointLimit {
        q_min: k(-1),
        q_max: k(1),
        v_max: k(2),
        a_max: k(10),
        alpha1: k(2),
        alpha2: k(2),
        alpha3: k(4),
    };
    // Upper: min(-4v + 4(1 - q), 4(2 - v), 10) at q = 0, v = 0.
    assert_eq!(joint_bounds(&j, k(0), k(0)), (k(-4), k(4)));
    // Braking hard: -4 * 2 + 4 * 1 = -4 above, clamped below at -10.
    assert_eq!(joint_bounds(&j, k(0), k(2)), (k(-10), k(-4)));
    // Past the limit the crossed bounds are swapped, inside the acceleration
    // limit.
    let (lo, hi) = joint_bounds(&j, k(9), k(-9));
    assert!(lo.at_most(hi) && k(-10).at_most(lo) && hi.at_most(k(10)));
}

#[test]
fn actuation_reaches_the_last_joints() {
    assert_eq!(entries(&actuation::<Fixed>(3, 2)), ks(&[0, 0, 1, 0, 0, 1]));
}

#[test]
fn dynamics_needs_a_factorable_mass() {
    let bad = mat(2, 2, &[0, 0, 0, 0]);
    let jc = Matrix::zeros(0, 2);
    let h = ks(&[1, 2]);
    assert!(Dynamics::try_new(Formulation::ForceSpace, &bad, &h, &jc, 2).is_none());
    assert!(Dynamics::try_new(Formulation::AccelSpace, &bad, &h, &jc, 2).is_some());
    let d = Dynamics::new(Formulation::ForceSpace, &mat(2, 2, &[2, 0, 0, 4]), &h, &jc, 2);
    // qddot = M^-1 (tau - h)
    let e = d.extract(&ks(&[5, 6]));
    assert!(near(e.qddot[0], k(2)) && near(e.qddot[1], k(1)));
    assert_eq!(e.tau, ks(&[5, 6]));
    assert!(d.dynamics_task().is_none());
    let a = Dynamics::new(Formulation::AccelSpace, &mat(2, 2, &[2, 0, 0, 4]), &h, &jc, 2);
    // tau = M qddot + h, and no row is left when every joint is actuated
    assert_eq!(a.extract(&ks(&[2, 1])).tau, ks(&[5, 6]));
    assert!(a.dynamics_task().is_none());
}

#[test]
fn reference_generators() {
    let (xr, x) = (ks(&[3]), ks(&[1]));
    let (vr, v) = (ks(&[5]), ks(&[2]));
    let (kp, kd, ff) = (ks(&[10]), ks(&[4]), ks(&[7]));
    assert_eq!(pd_ff(&xr, &x, &vr, &v, &kp, &kd, &ff), ks(&[39]));
    assert_eq!(pd(&xr, &x, &vr, &v, &kp, &kd), ks(&[32]));
    assert_eq!(impedance(&xr, &x, &v, &kp, &kd), ks(&[12]));
    assert_eq!(vel(&vr, &v, k(2)), vec![d(15, -1)]);
}

// Text.

#[test]
fn decimal_and_padding() {
    assert_eq!(decimal(0), "0");
    assert_eq!(decimal(1203), "1203");
    assert_eq!(decimal(usize::MAX), format!("{}", usize::MAX));
    assert_eq!(pad_left("7", 3), "  7");
    assert_eq!(pad_left("1234", 3), "1234");
    assert_eq!(pad_right("ab", 4), "ab  ");
}
