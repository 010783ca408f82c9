//! Dense quadratic programming with pluggable solvers.
//!
//! Solves `min 1/2 x'Hx + c'x` subject to `A_eq x = b_eq` and
//! `A_iq x <= b_iq`.
//!
//! | [`QpSolver`] | Algorithm |
//! |----|----|
//! | `ActiveSet` | primal active set, warm-startable ([`crate::active_set`]) |
//! | `Clarabel` | an outside conic interior-point solver ([`crate::conic`]) |
//! | `Ipm` | Mehrotra predictor-corrector ([`crate::ipm`]) |
//! | `Admm` | operator splitting with adaptive penalty ([`crate::admm`]) |

use vstd::prelude::*;

use crate::active_set::{active_set_s, solve_qp_active_set};
use crate::active_start::{opt_warm, warm_start_s};
use crate::admm::{admm_s, solve_qp_admm};
use crate::conic::{clarabel_s, solve_qp_clarabel};
use crate::dense::{
    dot, dot_s, mvec_s, mzeros_s, opt_vec, vcopy, vscale, vscale_s, vsub, vsub_s, vzeros, vzeros_s,
    Mat, Matrix,
};
use crate::ipm::{ipm_run_s, ipm_start_s, solve_qp_ipm};
use crate::kernels::{Backend, DenseKernels};
use crate::scalar::{lit_s, Arith, Scalar};

verus! {

/// Which solver to use.
#[derive(Debug, Clone, Copy, PartialEq, Eq, Structural)]
#[non_exhaustive]
pub enum QpSolver {
    /// Built-in primal active-set method (dense). Efficient for small problems.
    ActiveSet,
    /// Clarabel, an interior-point conic solver outside this crate.
    Clarabel,
    /// Built-in primal-dual interior-point method (Mehrotra
    /// predictor-corrector), dense.
    Ipm,
    /// Built-in operator-splitting (ADMM) solver, dense.
    Admm,
}

impl Default for QpSolver {
    fn default() -> (r: QpSolver)
        ensures
            r == QpSolver::ActiveSet,
    {
        QpSolver::ActiveSet
    }
}

/// Status of a QP solution.
#[derive(Debug, Clone, Copy, PartialEq, Eq, Structural)]
pub enum QpStatus {
    /// KKT conditions satisfied within tolerance.
    Optimal,
    /// Iteration limit exceeded.
    MaxIterations,
    /// No feasible point could be found.
    Infeasible,
    /// A singular matrix or other numerical issue was encountered.
    NumericalFailure,
}

/// Solution returned by [`solve_qp`].
#[derive(Debug)]
pub struct QpSolution<S> {
    /// Optimal (or best-found) decision variable.
    pub x: Vec<S>,
    /// Objective value `1/2 x'Hx + c'x`.
    pub objective: S,
    /// Multipliers of the equality constraints.
    pub lambda_eq: Vec<S>,
    /// Multipliers of the inequality constraints. Those of the active-set method
    /// are non-zero only for inequalities that are active at the solution; those
    /// of the other solvers vanish elsewhere up to their tolerances.
    pub lambda_iq: Vec<S>,
    pub status: QpStatus,
    /// Number of iterations performed.
    pub iterations: usize,
}

/// The model of a [`QpSolution`].
#[verifier::ext_equal]
pub struct Sol<T> {
    pub x: Seq<T>,
    pub objective: T,
    pub lambda_eq: Seq<T>,
    pub lambda_iq: Seq<T>,
    pub status: QpStatus,
    pub iterations: usize,
}

impl<S> View for QpSolution<S> {
    type V = Sol<S>;

    open spec fn view(&self) -> Sol<S> {
        Sol {
            x: self.x@,
            objective: self.objective,
            lambda_eq: self.lambda_eq@,
            lambda_iq: self.lambda_iq@,
            status: self.status,
            iterations: self.iterations,
        }
    }
}

impl<S: Scalar> Clone for QpSolution<S> {
    fn clone(&self) -> (r: QpSolution<S>)
        ensures
            r@ == self@,
    {
        QpSolution {
            x: vcopy(&self.x),
            objective: self.objective,
            lambda_eq: vcopy(&self.lambda_eq),
            lambda_iq: vcopy(&self.lambda_iq),
            status: self.status,
            iterations: self.iterations,
        }
    }
}

/// Solver parameters.
#[derive(Debug)]
pub struct QpConfig<S> {
    /// Which solver to use.
    pub solver: QpSolver,
    /// Maximum number of iterations.
    pub max_iters: usize,
    /// Tolerance of constraint feasibility checks.
    pub feasibility_tol: S,
    /// Tolerance of step-norm and multiplier optimality checks.
    pub optimality_tol: S,
    /// Proximal weight. When it is positive and an `x0` is given, the cost is
    /// augmented with `(prox_weight / 2) * |x - x0|^2`. Zero disables the term.
    pub prox_weight: S,
}

impl<S: Scalar> Clone for QpConfig<S> {
    fn clone(&self) -> (r: QpConfig<S>)
        ensures
            r == *self,
    {
        QpConfig {
            solver: self.solver,
            max_iters: self.max_iters,
            feasibility_tol: self.feasibility_tol,
            optimality_tol: self.optimality_tol,
            prox_weight: self.prox_weight,
        }
    }
}

/// The default parameters.
pub open spec fn default_config_s<T: Arith>() -> QpConfig<T> {
    QpConfig {
        solver: QpSolver::ActiveSet,
        max_iters: 500,
        feasibility_tol: lit_s::<T>(1, -10),
        optimality_tol: lit_s::<T>(1, -8),
        prox_weight: T::zero_s(),
    }
}

impl<S: Scalar> Default for QpConfig<S> {
    fn default() -> (r: QpConfig<S>)
        ensures
            r == default_config_s::<S>(),
    {
        QpConfig {
            solver: QpSolver::ActiveSet,
            max_iters: 500,
            feasibility_tol: S::dec(1, -10),
            optimality_tol: S::dec(1, -8),
            prox_weight: S::zero(),
        }
    }
}

/// Reusable warm-start state of the active-set method: the previous solution
/// and working set, from which the next solve starts instead of from a cold
/// phase one.
///
/// Feed it to [`solve_qp_warm`]; every active-set solve updates it in place,
/// however it ended. The other solvers ignore it.
#[derive(Debug)]
pub struct QpWorkspace<S> {
    pub(crate) x: Option<Vec<S>>,
    pub(crate) working_set: Vec<usize>,
}

/// The model of a [`QpWorkspace`].
#[verifier::ext_equal]
pub struct Warm<T> {
    pub x: Option<Seq<T>>,
    pub working_set: Seq<usize>,
}

impl<T> Warm<T> {
    /// The state from which the next solve starts cold.
    pub open spec fn cold() -> Warm<T> {
        Warm { x: None, working_set: Seq::empty() }
    }
}

impl<S> View for QpWorkspace<S> {
    type V = Warm<S>;

    closed spec fn view(&self) -> Warm<S> {
        Warm { x: opt_vec(self.x), working_set: self.working_set@ }
    }
}

impl<S> QpWorkspace<S> {
    /// An empty workspace.
    pub fn new() -> (w: QpWorkspace<S>)
        ensures
            w@ == Warm::<S>::cold(),
    {
        let w = QpWorkspace { x: None, working_set: Vec::new() };
        assert(w@.working_set =~= Seq::empty());
        w
    }

    /// Drops the stored state: the next solve starts cold.
    pub fn clear(&mut self)
        ensures
            final(self)@ == Warm::<S>::cold(),
    {
        self.x = None;
        self.working_set.clear();
        assert(self@.working_set =~= Seq::empty());
    }

    pub(crate) fn parts(&self) -> (r: (&Option<Vec<S>>, &Vec<usize>))
        ensures
            opt_vec(*r.0) == self@.x,
            r.1@ == self@.working_set,
    {
        (&self.x, &self.working_set)
    }

    pub(crate) fn of(x: Vec<S>, working_set: Vec<usize>) -> (w: QpWorkspace<S>)
        ensures
            w@ == (Warm { x: Some(x@), working_set: working_set@ }),
    {
        QpWorkspace { x: Some(x), working_set }
    }
}

impl<S: Scalar> Clone for QpWorkspace<S> {
    fn clone(&self) -> (w: QpWorkspace<S>)
        ensures
            w@ == self@,
    {
        let x = match &self.x {
            Some(x) => Some(vcopy(x)),
            None => None,
        };
        QpWorkspace { x, working_set: vcopy(&self.working_set) }
    }
}

impl<S> Default for QpWorkspace<S> {
    fn default() -> (w: QpWorkspace<S>)
        ensures
            w@ == Warm::<S>::cold(),
    {
        QpWorkspace::new()
    }
}

/// A quadratic program: `min 1/2 x'Hx + c'x` subject to `ae x = be` and
/// `ai x <= bi`.
#[verifier::ext_equal]
pub struct Qp<T> {
    pub h: Mat<T>,
    pub c: Seq<T>,
    pub ae: Mat<T>,
    pub be: Seq<T>,
    pub ai: Mat<T>,
    pub bi: Seq<T>,
}

impl<T> Qp<T> {
    pub open spec fn n(self) -> nat {
        self.c.len()
    }

    /// The shapes agree.
    pub open spec fn wf(self) -> bool {
        &&& self.h.shaped(self.c.len(), self.c.len())
        &&& self.ae.shaped(self.be.len(), self.c.len())
        &&& self.ai.shaped(self.bi.len(), self.c.len())
    }
}

/// A quadratic program as the solvers receive it.
pub struct QpProblem<'a, S> {
    pub h: &'a Matrix<S>,
    pub c: &'a Vec<S>,
    pub ae: Matrix<S>,
    pub be: Vec<S>,
    pub ai: Matrix<S>,
    pub bi: Vec<S>,
}

impl<'a, S> View for QpProblem<'a, S> {
    type V = Qp<S>;

    open spec fn view(&self) -> Qp<S> {
        Qp {
            h: self.h@,
            c: self.c@,
            ae: self.ae@,
            be: self.be@,
            ai: self.ai@,
            bi: self.bi@,
        }
    }
}

/// `1/2 x'Hx + c'x`.
pub open spec fn objective_s<T: Arith>(h: Mat<T>, c: Seq<T>, x: Seq<T>) -> T {
    lit_s::<T>(5, -1).mul_s(dot_s(x, mvec_s(h, x))).add_s(dot_s(c, x))
}

/// The objective value at `x`.
pub fn objective<S: Scalar>(h: &Matrix<S>, c: &Vec<S>, x: &Vec<S>) -> (r: S)
    requires
        h@.shaped(c@.len(), c@.len()),
        x@.len() == c@.len(),
    ensures
        r == objective_s(h@, c@, x@),
{
    let hx = h.apply(x);
    S::dec(5, -1).times(dot(x, &hx)).plus(dot(c, x))
}

/// The solution that stands for a solve that never started: all zero.
pub open spec fn fail_s<T: Arith>(q: Qp<T>, status: QpStatus) -> Sol<T> {
    Sol {
        x: vzeros_s(q.n()),
        objective: T::zero_s(),
        lambda_eq: vzeros_s(q.be.len()),
        lambda_iq: vzeros_s(q.bi.len()),
        status,
        iterations: 0,
    }
}

/// The solution at `x` with its objective value.
pub open spec fn make_sol_s<T: Arith>(
    q: Qp<T>,
    x: Seq<T>,
    lambda_eq: Seq<T>,
    lambda_iq: Seq<T>,
    status: QpStatus,
    iterations: usize,
) -> Sol<T> {
    Sol { x, objective: objective_s(q.h, q.c, x), lambda_eq, lambda_iq, status, iterations }
}

pub(crate) fn fail<S: Scalar>(q: &QpProblem<S>, status: QpStatus) -> (r: QpSolution<S>)
    ensures
        r@ == fail_s(q@, status),
{
    QpSolution {
        x: vzeros(q.c.len()),
        objective: S::zero(),
        lambda_eq: vzeros(q.be.len()),
        lambda_iq: vzeros(q.bi.len()),
        status,
        iterations: 0,
    }
}

pub(crate) fn make_sol<S: Scalar>(
    q: &QpProblem<S>,
    x: Vec<S>,
    lambda_eq: Vec<S>,
    lambda_iq: Vec<S>,
    status: QpStatus,
    iterations: usize,
) -> (r: QpSolution<S>)
    requires
        q@.wf(),
        x@.len() == q@.n(),
    ensures
        r@ == make_sol_s(q@, x@, lambda_eq@, lambda_iq@, status, iterations),
{
    let objective = objective(q.h, q.c, &x);
    QpSolution { x, objective, lambda_eq, lambda_iq, status, iterations }
}

/// The view of an optional matrix argument.
pub open spec fn opt_mat_ref<S>(m: Option<&Matrix<S>>) -> Option<Mat<S>> {
    match m {
        Some(a) => Some(a@),
        None => None,
    }
}

/// The view of an optional vector argument.
pub open spec fn opt_vec_ref<S>(v: Option<&Vec<S>>) -> Option<Seq<S>> {
    match v {
        Some(a) => Some(a@),
        None => None,
    }
}

/// An optional constraint block is given as a whole or not at all, with `n`
/// columns and one bound per row.
pub open spec fn pair_ok<T>(a: Option<Mat<T>>, b: Option<Seq<T>>, n: nat) -> bool {
    match (a, b) {
        (Some(a), Some(b)) => a.shaped(b.len(), n),
        (None, None) => true,
        _ => false,
    }
}

/// The constraint block, empty where it is not given.
pub open spec fn unpack_pair_s<T: Arith>(a: Option<Mat<T>>, b: Option<Seq<T>>, n: nat) -> (
    Mat<T>,
    Seq<T>,
) {
    match (a, b) {
        (Some(a), Some(b)) => (a, b),
        _ => (mzeros_s(0, n), Seq::empty()),
    }
}

pub(crate) fn unpack_pair<S: Scalar>(
    a: Option<&Matrix<S>>,
    b: Option<&Vec<S>>,
    n: usize,
) -> (r: (Matrix<S>, Vec<S>))
    requires
        pair_ok(opt_mat_ref(a), opt_vec_ref(b), n as nat),
    ensures
        (r.0@, r.1@) == unpack_pair_s(opt_mat_ref(a), opt_vec_ref(b), n as nat),
        r.0@.shaped(r.1@.len(), n as nat),
{
    match (a, b) {
        (Some(a), Some(b)) => (a.copied(), vcopy(b)),
        _ => {
            let none: Vec<S> = Vec::new();
            assert(none@ =~= Seq::<S>::empty());
            (Matrix::zeros(0, n), none)
        },
    }
}

/// The product of row `i` of `a` with `x`.
pub open spec fn row_dot_s<T: Arith>(a: Mat<T>, i: int, x: Seq<T>) -> T {
    dot_s(a.rows[i], x)
}

/// The product of row `i` of `a` with `x`.
pub(crate) fn row_dot<S: Scalar>(a: &Matrix<S>, i: usize, x: &Vec<S>) -> (r: S)
    requires
        a@.wf(),
        i < a@.nrows(),
        a@.ncols() == x@.len(),
    ensures
        r == row_dot_s(a@, i as int, x@),
{
    dot(a.row_ref(i), x)
}

/// A problem as a caller states it, with optional constraint blocks.
#[verifier::ext_equal]
pub struct QpArgs<T> {
    pub h: Mat<T>,
    pub c: Seq<T>,
    pub a_eq: Option<Mat<T>>,
    pub b_eq: Option<Seq<T>>,
    pub a_iq: Option<Mat<T>>,
    pub b_iq: Option<Seq<T>>,
    pub x0: Option<Seq<T>>,
}

impl<T: Arith> QpArgs<T> {
    /// The cost is augmented towards `x0`.
    pub open spec fn proximal(self, cfg: QpConfig<T>) -> bool {
        T::zero_s().lt_s(cfg.prox_weight) && self.x0 is Some
    }

    /// The Hessian that is solved with: `H + prox_weight * I` where proximal.
    pub open spec fn h_eff(self, cfg: QpConfig<T>) -> Mat<T> {
        if self.proximal(cfg) {
            prox_h_s(self.h, cfg.prox_weight)
        } else {
            self.h
        }
    }

    /// The linear cost that is solved with: `c - prox_weight * x0` where
    /// proximal.
    pub open spec fn c_eff(self, cfg: QpConfig<T>) -> Seq<T> {
        if self.proximal(cfg) {
            vsub_s(self.c, vscale_s(cfg.prox_weight, self.x0->0))
        } else {
            self.c
        }
    }

    /// The problem that is solved.
    pub open spec fn problem(self, cfg: QpConfig<T>) -> Qp<T> {
        let n = self.c.len();
        Qp {
            h: self.h_eff(cfg),
            c: self.c_eff(cfg),
            ae: unpack_pair_s(self.a_eq, self.b_eq, n).0,
            be: unpack_pair_s(self.a_eq, self.b_eq, n).1,
            ai: unpack_pair_s(self.a_iq, self.b_iq, n).0,
            bi: unpack_pair_s(self.a_iq, self.b_iq, n).1,
        }
    }

    /// The shapes agree; a constraint block is given as a whole or not at all.
    pub open spec fn wf(self) -> bool {
        let n = self.c.len();
        &&& self.h.shaped(n, n)
        &&& pair_ok(self.a_eq, self.b_eq, n)
        &&& pair_ok(self.a_iq, self.b_iq, n)
    }
}

impl<T: DenseKernels> QpArgs<T> {
    /// `x0` has the length of the decision variable wherever it is used: by
    /// the proximal term, and by the active-set method on a cold start.
    pub open spec fn x0_ok(self, cfg: QpConfig<T>, prior: Option<Warm<T>>) -> bool {
        match self.x0 {
            None => true,
            Some(v) => {
                ||| v.len() == self.c.len()
                ||| !T::zero_s().lt_s(cfg.prox_weight) && (cfg.solver != QpSolver::ActiveSet
                    || warm_start_s(self.problem(cfg), cfg, prior) is Some)
            },
        }
    }
}

/// `h` with `w` added along the diagonal.
pub open spec fn prox_h_s<T: Arith>(h: Mat<T>, w: T) -> Mat<T> {
    Mat::build(
        h.nrows(),
        h.ncols(),
        |i: int, j: int|
            if i == j {
                h.at(i, j).add_s(w)
            } else {
                h.at(i, j)
            },
    )
}

/// The arguments of a solve, as values.
pub open spec fn args_s<S>(
    h: &Matrix<S>,
    c: &Vec<S>,
    a_eq: Option<&Matrix<S>>,
    b_eq: Option<&Vec<S>>,
    a_iq: Option<&Matrix<S>>,
    b_iq: Option<&Vec<S>>,
    x0: Option<&Vec<S>>,
) -> QpArgs<S> {
    QpArgs {
        h: h@,
        c: c@,
        a_eq: opt_mat_ref(a_eq),
        b_eq: opt_vec_ref(b_eq),
        a_iq: opt_mat_ref(a_iq),
        b_iq: opt_vec_ref(b_iq),
        x0: opt_vec_ref(x0),
    }
}

/// The chosen solver's result on the problem `q`, and the warm-start state to
/// store: only the active-set method has one.
pub open spec fn backend_s<T: DenseKernels>(
    q: Qp<T>,
    x0: Option<Seq<T>>,
    cfg: QpConfig<T>,
    prior: Option<Warm<T>>,
) -> (Sol<T>, Option<Warm<T>>) {
    match cfg.solver {
        QpSolver::ActiveSet => {
            let out = active_set_s(q, x0, cfg, prior);
            (out.sol, Some(out.warm))
        },
        QpSolver::Ipm => (ipm_run_s(q, cfg, ipm_start_s(q), 0), None),
        QpSolver::Admm => (admm_s(q, cfg), None),
        QpSolver::Clarabel => (clarabel_s(q, cfg), None),
    }
}

/// The whole solve. The reported objective is that of the problem as it was
/// stated, without the proximal term.
#[verifier::opaque]
pub open spec fn solve_qp_s<T: DenseKernels>(
    args: QpArgs<T>,
    cfg: QpConfig<T>,
    prior: Option<Warm<T>>,
) -> (Sol<T>, Option<Warm<T>>) {
    let (sol, stored) = backend_s(args.problem(cfg), args.x0, cfg, prior);
    if args.proximal(cfg) {
        (Sol { objective: objective_s(args.h, args.c, sol.x), ..sol }, stored)
    } else {
        (sol, stored)
    }
}

fn prox_h<S: Scalar>(h: &Matrix<S>, w: S) -> (r: Matrix<S>)
    requires
        h@.wf(),
    ensures
        r@ == prox_h_s(h@, w),
        r@.shaped(h@.nrows(), h@.ncols()),
{
    let r = Matrix::tabulate(
        h.nrows(),
        h.ncols(),
        |i: usize, j: usize| -> (v: S)
            requires
                h@.wf(),
                i < h@.nrows(),
                j < h@.ncols(),
            ensures
                v == prox_h_s(h@, w).at(i as int, j as int)
            {
                if i == j {
                    h.at(i, j).plus(w)
                } else {
                    h.at(i, j)
                }
            },
    );
    proof {
        crate::dense::lemma_mat_eq(r@, prox_h_s(h@, w));
    }
    r
}

fn backend<S: Backend>(
    q: &QpProblem<S>,
    x0: Option<&Vec<S>>,
    cfg: &QpConfig<S>,
    prior: Option<&QpWorkspace<S>>,
) -> (r: (QpSolution<S>, Option<QpWorkspace<S>>))
    requires
        q@.wf(),
        cfg.solver == QpSolver::ActiveSet ==> crate::active_start::x0_fits_s(
            q@,
            opt_vec_ref(x0),
            *cfg,
            opt_warm(prior),
        ),
    ensures
        r.0@ == backend_s(q@, opt_vec_ref(x0), *cfg, opt_warm(prior)).0,
        opt_stored(r.1) == backend_s(q@, opt_vec_ref(x0), *cfg, opt_warm(prior)).1,
        r.0@.x.len() == q@.n(),
        match r.1 {
            Some(w) => cfg.solver == QpSolver::ActiveSet && w@.x == Some(r.0@.x),
            None => cfg.solver != QpSolver::ActiveSet,
        },
{
    match cfg.solver {
        QpSolver::ActiveSet => {
            let (sol, stored) = solve_qp_active_set(q, x0, cfg, prior);
            (sol, Some(stored))
        },
        QpSolver::Ipm => (solve_qp_ipm(q, cfg), None),
        QpSolver::Admm => (solve_qp_admm(q, cfg), None),
        QpSolver::Clarabel => (solve_qp_clarabel(q, cfg), None),
    }
}

/// The view of the state to store.
pub open spec fn opt_stored<S>(w: Option<QpWorkspace<S>>) -> Option<Warm<S>> {
    match w {
        Some(w) => Some(w@),
        None => None,
    }
}

pub(crate) fn solve_qp_impl<S: Backend>(
    h: &Matrix<S>,
    c: &Vec<S>,
    a_eq: Option<&Matrix<S>>,
    b_eq: Option<&Vec<S>>,
    a_iq: Option<&Matrix<S>>,
    b_iq: Option<&Vec<S>>,
    x0: Option<&Vec<S>>,
    config: &QpConfig<S>,
    prior: Option<&QpWorkspace<S>>,
) -> (r: (QpSolution<S>, Option<QpWorkspace<S>>))
    requires
        args_s(h, c, a_eq, b_eq, a_iq, b_iq, x0).wf(),
        args_s(h, c, a_eq, b_eq, a_iq, b_iq, x0).x0_ok(*config, opt_warm(prior)),
    ensures
        (r.0@, opt_stored(r.1)) == solve_qp_s(
            args_s(h, c, a_eq, b_eq, a_iq, b_iq, x0),
            *config,
            opt_warm(prior),
        ),
        r.0@.x.len() == c@.len(),
        match r.1 {
            Some(w) => config.solver == QpSolver::ActiveSet && w@.x == Some(r.0@.x),
            None => config.solver != QpSolver::ActiveSet,
        },
{
    proof {
        reveal(solve_qp_s);
    }
    let n = c.len();
    let (ae, be) = unpack_pair(a_eq, b_eq, n);
    let (ai, bi) = unpack_pair(a_iq, b_iq, n);
    if S::zero().less_than(config.prox_weight) {
        if let Some(x0v) = x0 {
            let h_aug = prox_h(h, config.prox_weight);
            let c_aug = vsub(c, &vscale(config.prox_weight, x0v));
            let q = QpProblem { h: &h_aug, c: &c_aug, ae, be, ai, bi };
            let (sol, stored) = backend(&q, x0, config, prior);
            let mut sol = sol;
            sol.objective = objective(h, c, &sol.x);
            return (sol, stored);
        }
    }
    let q = QpProblem { h, c, ae, be, ai, bi };
    backend(&q, x0, config, prior)
}

/// Solves a dense QP with the solver that `config` names.
///
/// * `h` - Hessian (n x n), to be positive (semi-)definite.
/// * `c` - linear cost (n).
/// * `a_eq`, `b_eq` - equality constraints, both or neither.
/// * `a_iq`, `b_iq` - inequality constraints, both or neither.
/// * `x0` - optional initial feasible point (used by `ActiveSet`), and the
///   centre of the proximal term.
pub fn solve_qp<S: Backend>(
    h: &Matrix<S>,
    c: &Vec<S>,
    a_eq: Option<&Matrix<S>>,
    b_eq: Option<&Vec<S>>,
    a_iq: Option<&Matrix<S>>,
    b_iq: Option<&Vec<S>>,
    x0: Option<&Vec<S>>,
    config: &QpConfig<S>,
) -> (r: QpSolution<S>)
    requires
        args_s(h, c, a_eq, b_eq, a_iq, b_iq, x0).wf(),
        args_s(h, c, a_eq, b_eq, a_iq, b_iq, x0).x0_ok(*config, None),
    ensures
        r@ == solve_qp_s(args_s(h, c, a_eq, b_eq, a_iq, b_iq, x0), *config, None).0,
        r@.x.len() == c@.len(),
{
    solve_qp_impl(h, c, a_eq, b_eq, a_iq, b_iq, x0, config, None).0
}

/// [`solve_qp`] with a persistent [`QpWorkspace`]: the active-set method starts
/// from the previous solution and working set and stores the new ones back,
/// whatever its status; the working set is empty where the solve ended before
/// it had one. Every other solver leaves the workspace as it is.
pub fn solve_qp_warm<S: Backend>(
    h: &Matrix<S>,
    c: &Vec<S>,
    a_eq: Option<&Matrix<S>>,
    b_eq: Option<&Vec<S>>,
    a_iq: Option<&Matrix<S>>,
    b_iq: Option<&Vec<S>>,
    x0: Option<&Vec<S>>,
    config: &QpConfig<S>,
    workspace: &mut QpWorkspace<S>,
) -> (r: QpSolution<S>)
    requires
        args_s(h, c, a_eq, b_eq, a_iq, b_iq, x0).wf(),
        args_s(h, c, a_eq, b_eq, a_iq, b_iq, x0).x0_ok(*config, Some(old(workspace)@)),
    ensures
        r@ == solve_qp_s(
            args_s(h, c, a_eq, b_eq, a_iq, b_iq, x0),
            *config,
            Some(old(workspace)@),
        ).0,
        final(workspace)@ == (match solve_qp_s(
            args_s(h, c, a_eq, b_eq, a_iq, b_iq, x0),
            *config,
            Some(old(workspace)@),
        ).1 {
            Some(w) => w,
            None => old(workspace)@,
        }),
        config.solver == QpSolver::ActiveSet ==> final(workspace)@.x == Some(r@.x),
        config.solver != QpSolver::ActiveSet ==> final(workspace)@ == old(workspace)@,
        r@.x.len() == c@.len(),
{
    let (sol, stored) = solve_qp_impl(
        h,
        c,
        a_eq,
        b_eq,
        a_iq,
        b_iq,
        x0,
        config,
        Some(&*workspace),
    );
    if let Some(w) = stored {
        *workspace = w;
    }
    sol
}

} // verus!
