//! The built-in primal active-set solver.
//!
//! Working-set changes update an [`ActiveFactor`] instead of factorising anew,
//! a [`QpWorkspace`] carries the previous point and working set into the next
//! solve, an ill conditioned Hessian is ridged and the result polished on the
//! original one, and Bland's rule takes over once the iteration count suggests
//! cycling.

use vstd::prelude::*;

use crate::active_start::{
    active_at, active_at_s, feasible, feasible_s, h_it_s, opt_warm, prepare, prepare_s, start,
    start_s, x0_fits_s,
};
use crate::dense::{
    deep, mvec_s, norm, norm_s, slice, slice_s, stack_vec, tabulate, vadd, vadd_s, vcopy,
    vfill, vneg, vneg_s, vscale, vscale_s, vzeros, vzeros_s, Mat, Matrix,
};
use crate::factor::{
    dot_rows_s, lemma_remove_wf, project_s, remove_s, solve_schur_s, try_push_s, ActiveFactor, Fac,
};
use crate::kernels::{lu_vec, lu_vec_s, Backend, DenseKernels};
use crate::qp::{
    fail, fail_s, make_sol, make_sol_s, opt_vec_ref, row_dot, row_dot_s, Qp, QpConfig, QpProblem,
    QpSolution, QpStatus, QpWorkspace, Sol, Warm,
};
use crate::scalar::{lit_s, Arith, Scalar};
use crate::triangular::{chol_solve, chol_solve_s, lower_rows};

verus! {

/// What stays fixed during the iterations.
pub struct AsCtx<T> {
    pub q: Qp<T>,
    /// The Hessian that the iterations see, and its factor.
    pub h_it: Mat<T>,
    pub chol: Seq<Seq<T>>,
    /// Whether that Hessian was ridged.
    pub ridged: bool,
    pub cfg: QpConfig<T>,
}

impl<T> AsCtx<T> {
    pub open spec fn wf(self) -> bool {
        &&& self.q.wf()
        &&& self.h_it.shaped(self.q.n(), self.q.n())
        &&& self.chol.len() == self.q.n()
        &&& lower_rows(self.chol)
    }
}

/// What the iterations change: the point, the factor of the active rows and
/// the working set, in the order in which its rows stand in the factor behind
/// the equalities.
#[verifier::ext_equal]
pub struct AsState<T> {
    pub x: Seq<T>,
    pub fac: Fac<T>,
    pub ws: Seq<usize>,
}

impl<T> AsState<T> {
    /// The factor holds the equalities and the working set, whose entries are
    /// distinct inequality numbers.
    pub open spec fn wf(self, q: Qp<T>) -> bool {
        &&& self.x.len() == q.n()
        &&& self.fac.wf(q.n())
        &&& self.fac.len() == q.be.len() + self.ws.len()
        &&& self.ws.no_duplicates()
        &&& forall|k: int| 0 <= k < self.ws.len() ==> #[trigger] self.ws[k] < q.bi.len()
    }
}

/// The end of the iterations: the solution and the state to store.
#[verifier::ext_equal]
pub struct AsOut<T> {
    pub sol: Sol<T>,
    pub warm: Warm<T>,
}

/// One iteration goes on with a state or stops.
pub enum AsNext<T> {
    Go(AsState<T>),
    Stop(AsOut<T>),
}

/// The longest step of at most one along `p` that breaks none of the first `n`
/// inequalities outside the working set, and the row that blocks it.
pub open spec fn step_length_s<T: Arith>(
    q: Qp<T>,
    x: Seq<T>,
    p: Seq<T>,
    ws: Seq<usize>,
    cfg: QpConfig<T>,
    n: nat,
) -> (T, Option<usize>)
    decreases n,
{
    if n == 0 {
        (T::one_s(), None)
    } else {
        let head = step_length_s(q, x, p, ws, cfg, (n - 1) as nat);
        let i = n - 1;
        let ai_p = row_dot_s(q.ai, i, p);
        if ws.contains(i as usize) || !cfg.feasibility_tol.lt_s(ai_p) {
            head
        } else {
            let alpha = q.bi[i].sub_s(row_dot_s(q.ai, i, x)).div_s(ai_p).max_s(T::zero_s());
            if alpha.lt_s(head.0) {
                (alpha, Some(i as usize))
            } else {
                head
            }
        }
    }
}

pub proof fn lemma_step_length_range<T: Arith>(
    q: Qp<T>,
    x: Seq<T>,
    p: Seq<T>,
    ws: Seq<usize>,
    cfg: QpConfig<T>,
    n: nat,
)
    requires
        n <= usize::MAX,
    ensures
        step_length_s(q, x, p, ws, cfg, n).1 matches Some(b) ==> b < n && !ws.contains(b),
    decreases n,
{
    if n > 0 {
        lemma_step_length_range(q, x, p, ws, cfg, (n - 1) as nat);
    }
}

/// Position `k` of the working set carries a multiplier below the tolerance.
pub open spec fn negative_s<T: Arith>(nu: Seq<T>, m_eq: nat, k: int, cfg: QpConfig<T>) -> bool {
    nu[m_eq + k].lt_s(cfg.optimality_tol.neg_s())
}

/// Bland's choice among the first `n` positions: the lowest constraint number
/// with a negative multiplier.
pub open spec fn bland_s<T: Arith>(
    nu: Seq<T>,
    m_eq: nat,
    ws: Seq<usize>,
    cfg: QpConfig<T>,
    n: nat,
) -> Option<int>
    decreases n,
{
    if n == 0 {
        None
    } else {
        let head = bland_s(nu, m_eq, ws, cfg, (n - 1) as nat);
        if negative_s(nu, m_eq, n - 1, cfg) && (head is None || ws[n - 1] < ws[head->0]) {
            Some(n - 1)
        } else {
            head
        }
    }
}

/// The most negative multiplier among the first `n` positions, and its place.
pub open spec fn steepest_s<T: Arith>(nu: Seq<T>, m_eq: nat, cfg: QpConfig<T>, n: nat) -> (
    T,
    Option<int>,
)
    decreases n,
{
    if n == 0 {
        (T::zero_s(), None)
    } else {
        let head = steepest_s(nu, m_eq, cfg, (n - 1) as nat);
        if negative_s(nu, m_eq, n - 1, cfg) && nu[m_eq + n - 1].lt_s(head.0) {
            (nu[m_eq + n - 1], Some(n - 1))
        } else {
            head
        }
    }
}

/// From this iteration on Bland's rule chooses.
pub open spec fn bland_after_s<T>(q: Qp<T>) -> nat {
    2 * (q.bi.len() + q.n()) + 10
}

/// The working-set position that leaves, if any.
pub open spec fn leave_s<T: Arith>(ctx: AsCtx<T>, st: AsState<T>, nu: Seq<T>, iter: usize) -> Option<
    int,
> {
    if iter >= bland_after_s(ctx.q) {
        bland_s(nu, ctx.q.be.len(), st.ws, ctx.cfg, st.ws.len())
    } else {
        steepest_s(nu, ctx.q.be.len(), ctx.cfg, st.ws.len()).1
    }
}

pub proof fn lemma_leave_range<T: Arith>(ctx: AsCtx<T>, st: AsState<T>, nu: Seq<T>, iter: usize)
    ensures
        leave_s(ctx, st, nu, iter) matches Some(k) ==> 0 <= k < st.ws.len(),
{
    lemma_bland_range(nu, ctx.q.be.len(), st.ws, ctx.cfg, st.ws.len());
    lemma_steepest_range(nu, ctx.q.be.len(), ctx.cfg, st.ws.len());
}

proof fn lemma_bland_range<T: Arith>(
    nu: Seq<T>,
    m_eq: nat,
    ws: Seq<usize>,
    cfg: QpConfig<T>,
    n: nat,
)
    ensures
        bland_s(nu, m_eq, ws, cfg, n) matches Some(k) ==> 0 <= k < n,
    decreases n,
{
    if n > 0 {
        lemma_bland_range(nu, m_eq, ws, cfg, (n - 1) as nat);
    }
}

proof fn lemma_steepest_range<T: Arith>(nu: Seq<T>, m_eq: nat, cfg: QpConfig<T>, n: nat)
    ensures
        steepest_s(nu, m_eq, cfg, n).1 matches Some(k) ==> 0 <= k < n,
    decreases n,
{
    if n > 0 {
        lemma_steepest_range(nu, m_eq, cfg, (n - 1) as nat);
    }
}

/// `base` with the entries `vals[off + k]` written to the places `ws[k]`, for
/// the first `n` of them.
pub open spec fn scatter_s<T>(base: Seq<T>, ws: Seq<usize>, vals: Seq<T>, off: nat, n: nat) -> Seq<
    T,
>
    decreases n,
{
    if n == 0 {
        base
    } else {
        scatter_s(base, ws, vals, off, (n - 1) as nat).update(
            ws[n - 1] as int,
            vals[off + n - 1],
        )
    }
}

/// Row `k` of the active constraints: the equalities, then the working set.
pub open spec fn active_row_s<T>(q: Qp<T>, ws: Seq<usize>, k: int) -> Seq<T> {
    if k < q.be.len() {
        q.ae.rows[k]
    } else {
        q.ai.rows[ws[k - q.be.len()] as int]
    }
}

/// The KKT matrix of the problem restricted to the active rows.
pub open spec fn kkt_s<T: Arith>(q: Qp<T>, ws: Seq<usize>) -> Mat<T> {
    let n = q.n();
    let m = q.be.len() + ws.len();
    Mat::build(
        n + m,
        n + m,
        |i: int, j: int|
            if i < n && j < n {
                q.h.at(i, j)
            } else if i >= n && j < n {
                active_row_s(q, ws, i - n)[j]
            } else if i < n {
                active_row_s(q, ws, j - n)[i]
            } else {
                T::zero_s()
            },
    )
}

/// The bounds of the working set.
pub open spec fn gather_s<T>(b: Seq<T>, ws: Seq<usize>) -> Seq<T> {
    Seq::new(ws.len(), |k: int| b[ws[k] as int])
}

/// The right-hand side that goes with [`kkt_s`].
pub open spec fn kkt_rhs_s<T: Arith>(q: Qp<T>, ws: Seq<usize>) -> Seq<T> {
    vneg_s(q.c) + (q.be + gather_s(q.bi, ws))
}

/// The polished point `z` keeps the inactive inequality `i`.
pub open spec fn polish_keeps_s<T: Arith>(q: Qp<T>, z: Seq<T>, i: int, cfg: QpConfig<T>) -> bool {
    !q.bi[i].add_s(lit_s::<T>(10, 0).mul_s(cfg.feasibility_tol)).lt_s(
        row_dot_s(q.ai, i, slice_s(z, 0, q.n())),
    )
}

/// The multiplier of working-set position `k` in `z` is not negative.
pub open spec fn polish_dual_s<T: Arith>(q: Qp<T>, z: Seq<T>, k: int, cfg: QpConfig<T>) -> bool {
    !z[q.n() + q.be.len() + k].lt_s(lit_s::<T>(-10, 0).mul_s(cfg.optimality_tol))
}

/// The polished point stays primal and dual feasible.
pub open spec fn polish_ok_s<T: Arith>(
    q: Qp<T>,
    z: Seq<T>,
    ws: Seq<usize>,
    cfg: QpConfig<T>,
) -> bool {
    &&& forall|i: int|
        0 <= i < q.bi.len() && !ws.contains(i as usize) ==> #[trigger] polish_keeps_s(q, z, i, cfg)
    &&& forall|k: int| 0 <= k < ws.len() ==> #[trigger] polish_dual_s(q, z, k, cfg)
}

/// The point and multipliers after the KKT system of the final active set has
/// been solved with the original Hessian. They stay as they are where that
/// fails or leaves the feasible set.
pub open spec fn polish_s<T: DenseKernels>(
    q: Qp<T>,
    x: Seq<T>,
    le: Seq<T>,
    li: Seq<T>,
    ws: Seq<usize>,
    cfg: QpConfig<T>,
) -> (Seq<T>, Seq<T>, Seq<T>) {
    match lu_vec_s(kkt_s(q, ws), kkt_rhs_s(q, ws)) {
        None => (x, le, li),
        Some(z) => if polish_ok_s(q, z, ws, cfg) {
            (
                slice_s(z, 0, q.n()),
                slice_s(z, q.n(), q.be.len()),
                scatter_s(li, ws, z, q.n() + q.be.len(), ws.len()),
            )
        } else {
            (x, le, li)
        },
    }
}

/// The optimal exit, polished where the Hessian was ridged.
pub open spec fn finish_s<T: DenseKernels>(
    ctx: AsCtx<T>,
    st: AsState<T>,
    le: Seq<T>,
    li: Seq<T>,
    iter: usize,
) -> AsOut<T> {
    let (x, le, li) = if ctx.ridged {
        polish_s(ctx.q, st.x, le, li, st.ws, ctx.cfg)
    } else {
        (st.x, le, li)
    };
    AsOut {
        sol: make_sol_s(ctx.q, x, le, li, QpStatus::Optimal, iter),
        warm: Warm { x: Some(x), working_set: st.ws },
    }
}

/// Any other exit, with zero multipliers.
pub open spec fn give_up_s<T: Arith>(
    ctx: AsCtx<T>,
    st: AsState<T>,
    status: QpStatus,
    iter: usize,
) -> AsOut<T> {
    AsOut {
        sol: make_sol_s(
            ctx.q,
            st.x,
            vzeros_s(ctx.q.be.len()),
            vzeros_s(ctx.q.bi.len()),
            status,
            iter,
        ),
        warm: Warm { x: Some(st.x), working_set: st.ws },
    }
}

/// Working-set position `k` leaves.
pub open spec fn drop_s<T: Arith>(q: Qp<T>, st: AsState<T>, k: int) -> AsState<T> {
    AsState { x: st.x, fac: remove_s(st.fac, q.be.len() + k), ws: st.ws.remove(k) }
}

/// The point moves along `p` as far as it may; a blocking row joins the
/// working set. A blocking row that depends on the active ones makes the most
/// recent working row leave instead; with none to leave, the solve fails.
pub open spec fn advance_s<T: Arith>(ctx: AsCtx<T>, st: AsState<T>, p: Seq<T>, iter: usize) -> AsNext<
    T,
> {
    let q = ctx.q;
    let step = step_length_s(q, st.x, p, st.ws, ctx.cfg, q.bi.len());
    let moved = AsState { x: vadd_s(st.x, vscale_s(step.0, p)), fac: st.fac, ws: st.ws };
    match step.1 {
        None => AsNext::Go(moved),
        Some(b) => match try_push_s(st.fac, q.ai.rows[b as int], ctx.chol) {
            Some(f) => AsNext::Go(AsState { x: moved.x, fac: f, ws: st.ws.push(b) }),
            None => if st.fac.len() == 0 {
                AsNext::Go(moved)
            } else if st.ws.len() > 0 {
                AsNext::Go(drop_s(q, moved, st.ws.len() - 1))
            } else {
                AsNext::Stop(give_up_s(ctx, moved, QpStatus::NumericalFailure, iter))
            },
        },
    }
}

/// One iteration.
pub open spec fn as_step_s<T: DenseKernels>(ctx: AsCtx<T>, st: AsState<T>, iter: usize) -> AsNext<
    T,
> {
    let q = ctx.q;
    let grad = vadd_s(mvec_s(ctx.h_it, st.x), q.c);
    let r = chol_solve_s(ctx.chol, vneg_s(grad));
    if st.fac.len() == 0 {
        if norm_s(r).lt_s(ctx.cfg.optimality_tol) {
            AsNext::Stop(finish_s(ctx, st, vzeros_s(q.be.len()), vzeros_s(q.bi.len()), iter))
        } else {
            advance_s(ctx, st, r, iter)
        }
    } else {
        let nu = solve_schur_s(st.fac, dot_rows_s(st.fac, r));
        let p = project_s(st.fac, r, nu);
        if norm_s(p).lt_s(ctx.cfg.optimality_tol) {
            match leave_s(ctx, st, nu, iter) {
                None => AsNext::Stop(
                    finish_s(
                        ctx,
                        st,
                        slice_s(nu, 0, q.be.len()),
                        scatter_s(vzeros_s(q.bi.len()), st.ws, nu, q.be.len(), st.ws.len()),
                        iter,
                    ),
                ),
                Some(k) => AsNext::Go(drop_s(q, st, k)),
            }
        } else {
            advance_s(ctx, st, p, iter)
        }
    }
}

/// The iterations from `iter` on.
pub open spec fn as_run_s<T: DenseKernels>(ctx: AsCtx<T>, st: AsState<T>, iter: usize) -> AsOut<T>
    decreases ctx.cfg.max_iters - iter,
{
    if iter >= ctx.cfg.max_iters {
        give_up_s(ctx, st, QpStatus::MaxIterations, ctx.cfg.max_iters)
    } else {
        match as_step_s(ctx, st, iter) {
            AsNext::Go(next) => as_run_s(ctx, next, (iter + 1) as usize),
            AsNext::Stop(out) => out,
        }
    }
}

/// The factor of the first `n` equalities, if they are independent.
pub open spec fn eq_factor_s<T: Arith>(q: Qp<T>, chol: Seq<Seq<T>>, n: nat) -> Option<Fac<T>>
    decreases n,
{
    if n == 0 {
        Some(Fac::empty())
    } else {
        match eq_factor_s(q, chol, (n - 1) as nat) {
            Some(f) => try_push_s(f, q.ae.rows[n - 1], chol),
            None => None,
        }
    }
}

/// The factor and working set after the first `n` seed rows: repeated and
/// dependent rows are passed over.
pub open spec fn seeded_s<T: Arith>(
    q: Qp<T>,
    chol: Seq<Seq<T>>,
    fac: Fac<T>,
    seed: Seq<usize>,
    n: nat,
) -> (Fac<T>, Seq<usize>)
    decreases n,
{
    if n == 0 {
        (fac, Seq::empty())
    } else {
        let head = seeded_s(q, chol, fac, seed, (n - 1) as nat);
        let i = seed[n - 1];
        if head.1.contains(i) {
            head
        } else {
            match try_push_s(head.0, q.ai.rows[i as int], chol) {
                Some(f) => (f, head.1.push(i)),
                None => head,
            }
        }
    }
}

/// The fixed part of a solve.
pub open spec fn context_s<T: Arith>(q: Qp<T>, cfg: QpConfig<T>, l: Mat<T>, ridge: T) -> AsCtx<T> {
    AsCtx {
        q,
        h_it: h_it_s(q.h, ridge),
        chol: l.rows,
        ridged: T::zero_s().lt_s(ridge),
        cfg,
    }
}

/// What is stored where no working set was built: the returned point alone.
pub open spec fn stored_point_s<T>(sol: Sol<T>) -> Warm<T> {
    Warm { x: Some(sol.x), working_set: Seq::empty() }
}

/// The solve from its first point on: the solution and the state to store.
pub open spec fn iterate_s<T: DenseKernels>(
    ctx: AsCtx<T>,
    x: Seq<T>,
    seed: Option<Seq<usize>>,
) -> AsOut<T> {
    let q = ctx.q;
    match eq_factor_s(q, ctx.chol, q.be.len()) {
        None => {
            let sol = make_sol_s(
                q,
                x,
                vzeros_s(q.be.len()),
                vzeros_s(q.bi.len()),
                QpStatus::NumericalFailure,
                0,
            );
            AsOut { sol, warm: stored_point_s(sol) }
        },
        Some(f) => {
            let rows = match seed {
                Some(rows) => rows,
                None => active_at_s(q, x, q.bi.len(), ctx.cfg),
            };
            let (fac, ws) = seeded_s(q, ctx.chol, f, rows, rows.len());
            as_run_s(ctx, AsState { x, fac, ws }, 0)
        },
    }
}

/// The whole solve: the solution and the state to store.
pub open spec fn active_set_s<T: DenseKernels>(
    q: Qp<T>,
    x0: Option<Seq<T>>,
    cfg: QpConfig<T>,
    prior: Option<Warm<T>>,
) -> AsOut<T> {
    match prepare_s(q.h) {
        None => {
            let sol = fail_s(q, QpStatus::NumericalFailure);
            AsOut { sol, warm: stored_point_s(sol) }
        },
        Some(pre) => {
            let (x, seed) = start_s(q, x0, cfg, prior);
            if !feasible_s(q, x, cfg) {
                let sol = fail_s(q, QpStatus::Infeasible);
                AsOut { sol, warm: stored_point_s(sol) }
            } else {
                iterate_s(context_s(q, cfg, pre.0, pre.1), x, seed)
            }
        },
    }
}

/// Whatever the outcome, the stored point is the returned one.
pub proof fn lemma_stored_point<T: DenseKernels>(
    q: Qp<T>,
    x0: Option<Seq<T>>,
    cfg: QpConfig<T>,
    prior: Option<Warm<T>>,
)
    ensures
        active_set_s(q, x0, cfg, prior).warm.x == Some(active_set_s(q, x0, cfg, prior).sol.x),
{
    match prepare_s(q.h) {
        None => {},
        Some(pre) => {
            let ctx = context_s(q, cfg, pre.0, pre.1);
            let (x, seed) = start_s(q, x0, cfg, prior);
            match eq_factor_s(q, ctx.chol, q.be.len()) {
                None => {},
                Some(f) => {
                    let rows = match seed {
                        Some(rows) => rows,
                        None => active_at_s(q, x, q.bi.len(), cfg),
                    };
                    let (fac, ws) = seeded_s(q, ctx.chol, f, rows, rows.len());
                    lemma_run_stores(ctx, AsState { x, fac, ws }, 0);
                },
            }
        },
    }
}

proof fn lemma_run_stores<T: DenseKernels>(ctx: AsCtx<T>, st: AsState<T>, iter: usize)
    ensures
        as_run_s(ctx, st, iter).warm.x == Some(as_run_s(ctx, st, iter).sol.x),
    decreases ctx.cfg.max_iters - iter,
{
    if iter < ctx.cfg.max_iters {
        match as_step_s(ctx, st, iter) {
            AsNext::Go(next) => {
                lemma_run_stores(ctx, next, (iter + 1) as usize);
            },
            AsNext::Stop(_) => {},
        }
    }
}

/// What stays fixed during the iterations.
struct AsContext<'a, S> {
    q: &'a QpProblem<'a, S>,
    h_it: &'a Matrix<S>,
    chol: &'a Matrix<S>,
    ridged: bool,
    cfg: &'a QpConfig<S>,
}

impl<'a, S> View for AsContext<'a, S> {
    type V = AsCtx<S>;

    closed spec fn view(&self) -> AsCtx<S> {
        AsCtx {
            q: self.q@,
            h_it: self.h_it@,
            chol: self.chol@.rows,
            ridged: self.ridged,
            cfg: *self.cfg,
        }
    }
}

/// What the iterations change. `in_ws` marks the members of `ws`.
struct AsWork<S> {
    x: Vec<S>,
    fac: ActiveFactor<S>,
    ws: Vec<usize>,
    in_ws: Vec<bool>,
}

impl<S> View for AsWork<S> {
    type V = AsState<S>;

    closed spec fn view(&self) -> AsState<S> {
        AsState { x: self.x@, fac: self.fac@, ws: self.ws@ }
    }
}

/// `marks[i]` tells whether `ws` holds `i`.
pub open spec fn marks_s(marks: Seq<bool>, ws: Seq<usize>) -> bool {
    forall|i: int| 0 <= i < marks.len() ==> #[trigger] marks[i] == ws.contains(i as usize)
}

impl<S> AsWork<S> {
    spec fn wf(self, q: Qp<S>) -> bool {
        self@.wf(q) && self.in_ws@.len() == q.bi.len() && marks_s(self.in_ws@, self.ws@)
    }
}

/// The view of an iteration's result.
enum AsTurn<S> {
    Go(AsWork<S>),
    Stop(QpSolution<S>, QpWorkspace<S>),
}

impl<S> AsTurn<S> {
    spec fn view(self) -> AsNext<S> {
        match self {
            AsTurn::Go(w) => AsNext::Go(w@),
            AsTurn::Stop(s, w) => AsNext::Stop(AsOut { sol: s@, warm: w@ }),
        }
    }

    spec fn wf(self, q: Qp<S>) -> bool {
        match self {
            AsTurn::Go(w) => w.wf(q),
            AsTurn::Stop(s, w) => s@.x.len() == q.n(),
        }
    }
}

fn step_length<S: Scalar>(
    q: &QpProblem<S>,
    x: &Vec<S>,
    p: &Vec<S>,
    in_ws: &Vec<bool>,
    cfg: &QpConfig<S>,
    Ghost(ws): Ghost<Seq<usize>>,
) -> (r: (S, Option<usize>))
    requires
        q@.wf(),
        x@.len() == q@.n(),
        p@.len() == q@.n(),
        in_ws@.len() == q@.bi.len(),
        marks_s(in_ws@, ws),
    ensures
        r == step_length_s(q@, x@, p@, ws, *cfg, q@.bi.len()),
{
    let mut alpha = S::one();
    let mut blocking: Option<usize> = None;
    let mut i: usize = 0;
    while i < q.bi.len()
        invariant
            q@.wf(),
            x@.len() == q@.n(),
            p@.len() == q@.n(),
            in_ws@.len() == q@.bi.len(),
            marks_s(in_ws@, ws),
            i <= q.bi@.len(),
            (alpha, blocking) == step_length_s(q@, x@, p@, ws, *cfg, i as nat),
        decreases q.bi@.len() - i,
    {
        if !in_ws[i] {
            let ai_p = row_dot(&q.ai, i, p);
            if cfg.feasibility_tol.less_than(ai_p) {
                let slack = q.bi[i].minus(row_dot(&q.ai, i, x));
                let alpha_i = slack.over(ai_p).larger(S::zero());
                if alpha_i.less_than(alpha) {
                    alpha = alpha_i;
                    blocking = Some(i);
                }
            }
        }
        i += 1;
    }
    (alpha, blocking)
}

fn bland<S: Scalar>(nu: &Vec<S>, m_eq: usize, ws: &Vec<usize>, cfg: &QpConfig<S>) -> (r: Option<
    usize,
>)
    requires
        nu@.len() == m_eq + ws@.len(),
    ensures
        match r {
            Some(k) => bland_s(nu@, m_eq as nat, ws@, *cfg, ws@.len()) == Some(k as int),
            None => bland_s(nu@, m_eq as nat, ws@, *cfg, ws@.len()) is None,
        },
{
    let total = nu.len();
    let mut best: Option<usize> = None;
    let mut k: usize = 0;
    while k < ws.len()
        invariant
            total == nu@.len(),
            nu@.len() == m_eq + ws@.len(),
            k <= ws@.len(),
            match best {
                Some(b) => b < k && bland_s(nu@, m_eq as nat, ws@, *cfg, k as nat) == Some(
                    b as int,
                ),
                None => bland_s(nu@, m_eq as nat, ws@, *cfg, k as nat) is None,
            },
        decreases ws@.len() - k,
    {
        let mu = nu[m_eq + k];
        if mu.less_than(cfg.optimality_tol.negated()) {
            match best {
                None => {
                    best = Some(k);
                },
                Some(b) => {
                    if ws[k] < ws[b] {
                        best = Some(k);
                    }
                },
            }
        }
        k += 1;
    }
    best
}

fn steepest<S: Scalar>(nu: &Vec<S>, m_eq: usize, m_w: usize, cfg: &QpConfig<S>) -> (r: Option<
    usize,
>)
    requires
        nu@.len() == m_eq + m_w,
    ensures
        match r {
            Some(k) => steepest_s(nu@, m_eq as nat, *cfg, m_w as nat).1 == Some(k as int),
            None => steepest_s(nu@, m_eq as nat, *cfg, m_w as nat).1 is None,
        },
{
    let total = nu.len();
    let mut worst = S::zero();
    let mut leave: Option<usize> = None;
    let mut k: usize = 0;
    while k < m_w
        invariant
            total == nu@.len(),
            nu@.len() == m_eq + m_w,
            k <= m_w,
            worst == steepest_s(nu@, m_eq as nat, *cfg, k as nat).0,
            match leave {
                Some(b) => steepest_s(nu@, m_eq as nat, *cfg, k as nat).1 == Some(b as int),
                None => steepest_s(nu@, m_eq as nat, *cfg, k as nat).1 is None,
            },
        decreases m_w - k,
    {
        let mu = nu[m_eq + k];
        if mu.less_than(cfg.optimality_tol.negated()) && mu.less_than(worst) {
            worst = mu;
            leave = Some(k);
        }
        k += 1;
    }
    leave
}

fn leave<S: Scalar>(ctx: &AsContext<S>, w: &AsWork<S>, nu: &Vec<S>, iter: usize) -> (r: Option<
    usize,
>)
    requires
        ctx@.wf(),
        w.wf(ctx@.q),
        nu@.len() == w@.fac.len(),
    ensures
        match r {
            Some(k) => leave_s(ctx@, w@, nu@, iter) == Some(k as int),
            None => leave_s(ctx@, w@, nu@, iter) is None,
        },
{
    let bland_after: u128 = 2 * (ctx.q.bi.len() as u128 + ctx.q.c.len() as u128) + 10;
    if iter as u128 >= bland_after {
        bland(nu, ctx.q.be.len(), &w.ws, ctx.cfg)
    } else {
        steepest(nu, ctx.q.be.len(), w.ws.len(), ctx.cfg)
    }
}

pub proof fn lemma_scatter_len<T>(base: Seq<T>, ws: Seq<usize>, vals: Seq<T>, off: nat, n: nat)
    requires
        n <= ws.len(),
        forall|k: int| 0 <= k < ws.len() ==> #[trigger] ws[k] < base.len(),
    ensures
        scatter_s(base, ws, vals, off, n).len() == base.len(),
    decreases n,
{
    if n > 0 {
        lemma_scatter_len(base, ws, vals, off, (n - 1) as nat);
    }
}

fn scatter<S: Scalar>(base: &Vec<S>, ws: &Vec<usize>, vals: &Vec<S>, off: usize) -> (r: Vec<S>)
    requires
        off + ws@.len() <= vals@.len(),
        forall|k: int| 0 <= k < ws@.len() ==> #[trigger] ws@[k] < base@.len(),
    ensures
        r@ == scatter_s(base@, ws@, vals@, off as nat, ws@.len()),
{
    let total = vals.len();
    let mut r = vcopy(base);
    let mut k: usize = 0;
    while k < ws.len()
        invariant
            total == vals@.len(),
            off + ws@.len() <= vals@.len(),
            forall|k: int| 0 <= k < ws@.len() ==> #[trigger] ws@[k] < base@.len(),
            k <= ws@.len(),
            r@.len() == base@.len(),
            r@ == scatter_s(base@, ws@, vals@, off as nat, k as nat),
        decreases ws@.len() - k,
    {
        r[ws[k]] = vals[off + k];
        k += 1;
    }
    r
}

fn contains(ws: &Vec<usize>, i: usize) -> (r: bool)
    ensures
        r == ws@.contains(i),
{
    let mut k: usize = 0;
    while k < ws.len()
        invariant
            k <= ws@.len(),
            forall|j: int| 0 <= j < k ==> #[trigger] ws@[j] != i,
        decreases ws@.len() - k,
    {
        if ws[k] == i {
            return true;
        }
        k += 1;
    }
    false
}

fn kkt<S: Scalar>(q: &QpProblem<S>, ws: &Vec<usize>, nm: usize) -> (r: Matrix<S>)
    requires
        q@.wf(),
        forall|k: int| 0 <= k < ws@.len() ==> #[trigger] ws@[k] < q@.bi.len(),
        nm == q@.n() + (q@.be.len() + ws@.len()),
    ensures
        r@ == kkt_s(q@, ws@),
        r@.shaped(nm as nat, nm as nat),
{
    let n = q.c.len();
    let m_eq = q.be.len();
    let r = Matrix::tabulate(
        nm,
        nm,
        |i: usize, j: usize| -> (v: S)
            requires
                q@.wf(),
                forall|k: int| 0 <= k < ws@.len() ==> #[trigger] ws@[k] < q@.bi.len(),
                n == q@.n(),
                m_eq == q@.be.len(),
                nm == n + (m_eq + ws@.len()),
                i < nm,
                j < nm,
            ensures
                v == kkt_s(q@, ws@).at(i as int, j as int)
            {
                if i < n && j < n {
                    q.h.at(i, j)
                } else if i < n || j < n {
                    let (k, l) = if j < n {
                        (i - n, j)
                    } else {
                        (j - n, i)
                    };
                    if k < m_eq {
                        q.ae.at(k, l)
                    } else {
                        assert(ws@[k - m_eq] < q@.bi.len());
                        q.ai.at(ws[k - m_eq], l)
                    }
                } else {
                    S::zero()
                }
            },
    );
    proof {
        crate::dense::lemma_mat_eq(r@, kkt_s(q@, ws@));
    }
    r
}

fn gather<S: Scalar>(b: &Vec<S>, ws: &Vec<usize>) -> (r: Vec<S>)
    requires
        forall|k: int| 0 <= k < ws@.len() ==> #[trigger] ws@[k] < b@.len(),
    ensures
        r@ == gather_s(b@, ws@),
{
    let r = tabulate(
        ws.len(),
        |k: usize| -> (v: S)
            requires
                k < ws@.len(),
                ws@[k as int] < b@.len(),
            ensures
                v == b@[ws@[k as int] as int]
            { b[ws[k]] },
    );
    assert(r@ =~= gather_s(b@, ws@));
    r
}

fn polish_ok<S: Scalar>(
    q: &QpProblem<S>,
    xp: &Vec<S>,
    z: &Vec<S>,
    ws: &Vec<usize>,
    cfg: &QpConfig<S>,
) -> (r: bool)
    requires
        q@.wf(),
        z@.len() == q@.n() + (q@.be.len() + ws@.len()),
        xp@ == slice_s(z@, 0, q@.n()),
    ensures
        r == polish_ok_s(q@, z@, ws@, *cfg),
{
    let tol = S::dec(10, 0).times(cfg.feasibility_tol);
    let mut i: usize = 0;
    while i < q.bi.len()
        invariant
            q@.wf(),
            z@.len() == q@.n() + (q@.be.len() + ws@.len()),
            xp@ == slice_s(z@, 0, q@.n()),
            tol == lit_s::<S>(10, 0).mul_s(cfg.feasibility_tol),
            i <= q.bi@.len(),
            forall|k: int|
                0 <= k < i && !ws@.contains(k as usize) ==> #[trigger] polish_keeps_s(
                    q@,
                    z@,
                    k,
                    *cfg,
                ),
        decreases q.bi@.len() - i,
    {
        if !contains(ws, i) && q.bi[i].plus(tol).less_than(row_dot(&q.ai, i, xp)) {
            assert(!polish_keeps_s(q@, z@, i as int, *cfg));
            return false;
        }
        i += 1;
    }
    let total = z.len();
    let low = S::dec(-10, 0).times(cfg.optimality_tol);
    let mut k: usize = 0;
    while k < ws.len()
        invariant
            total == z@.len(),
            z@.len() == q@.n() + (q@.be.len() + ws@.len()),
            low == lit_s::<S>(-10, 0).mul_s(cfg.optimality_tol),
            k <= ws@.len(),
            forall|j: int| 0 <= j < k ==> #[trigger] polish_dual_s(q@, z@, j, *cfg),
        decreases ws@.len() - k,
    {
        let at = q.c.len() + q.be.len() + k;
        if z[at].less_than(low) {
            assert(!polish_dual_s(q@, z@, k as int, *cfg));
            return false;
        }
        k += 1;
    }
    true
}

/// Solves the KKT system of the active rows with the original Hessian, to
/// recover the unregularised optimum on the active set that the ridged
/// iterations found. Applied only if the polished point stays primal and dual
/// feasible; otherwise the ridged solution is kept.
fn polish<S: Backend>(
    q: &QpProblem<S>,
    x: Vec<S>,
    le: Vec<S>,
    li: Vec<S>,
    ws: &Vec<usize>,
    cfg: &QpConfig<S>,
) -> (r: (Vec<S>, Vec<S>, Vec<S>))
    requires
        q@.wf(),
        x@.len() == q@.n(),
        li@.len() == q@.bi.len(),
        forall|k: int| 0 <= k < ws@.len() ==> #[trigger] ws@[k] < q@.bi.len(),
    ensures
        (r.0@, r.1@, r.2@) == polish_s(q@, x@, le@, li@, ws@, *cfg),
        r.0@.len() == q@.n(),
{
    let bhat = stack_vec(&q.be, &gather(&q.bi, ws));
    let rhs = stack_vec(&vneg(q.c), &bhat);
    let nm = rhs.len();
    match lu_vec(&kkt(q, ws, nm), &rhs) {
        None => (x, le, li),
        Some(z) => {
            let n = q.c.len();
            let m_eq = q.be.len();
            let total = z.len();
            let xp = slice(&z, 0, n);
            if polish_ok(q, &xp, &z, ws, cfg) {
                (xp, slice(&z, n, m_eq), scatter(&li, ws, &z, n + m_eq))
            } else {
                (x, le, li)
            }
        },
    }
}

fn finish<S: Backend>(ctx: &AsContext<S>, w: AsWork<S>, le: Vec<S>, li: Vec<S>, iter: usize) -> (r:
    AsTurn<S>)
    requires
        ctx@.wf(),
        w.wf(ctx@.q),
        li@.len() == ctx@.q.bi.len(),
    ensures
        r.view() == AsNext::Stop(finish_s(ctx@, w@, le@, li@, iter)),
        r.wf(ctx@.q),
{
    let (x, le, li) = if ctx.ridged {
        polish(ctx.q, w.x, le, li, &w.ws, ctx.cfg)
    } else {
        (w.x, le, li)
    };
    let stored = vcopy(&x);
    AsTurn::Stop(
        make_sol(ctx.q, x, le, li, QpStatus::Optimal, iter),
        QpWorkspace::of(stored, w.ws),
    )
}

fn give_up<S: Backend>(ctx: &AsContext<S>, w: AsWork<S>, status: QpStatus, iter: usize) -> (r: (
    QpSolution<S>,
    QpWorkspace<S>,
))
    requires
        ctx@.wf(),
        w.wf(ctx@.q),
    ensures
        (AsOut { sol: r.0@, warm: r.1@ }) == give_up_s(ctx@, w@, status, iter),
        r.0@.x.len() == ctx@.q.n(),
{
    let stored = vcopy(&w.x);
    let le = vzeros(ctx.q.be.len());
    let li = vzeros(ctx.q.bi.len());
    (make_sol(ctx.q, w.x, le, li, status, iter), QpWorkspace::of(stored, w.ws))
}

/// What is left of a working set once a place is taken out.
pub proof fn lemma_ws_remove(ws: Seq<usize>, k: int)
    requires
        ws.no_duplicates(),
        0 <= k < ws.len(),
    ensures
        ws.remove(k).no_duplicates(),
        forall|v: usize| #[trigger]
            ws.remove(k).contains(v) == (ws.contains(v) && v != ws[k]),
{
    let r = ws.remove(k);
    assert forall|v: usize| #[trigger] r.contains(v) == (ws.contains(v) && v != ws[k]) by {
        if r.contains(v) {
            let i = choose|i: int| 0 <= i < r.len() && r[i] == v;
            let j = if i < k {
                i
            } else {
                i + 1
            };
            assert(ws[j] == v);
        }
        if ws.contains(v) && v != ws[k] {
            let j = choose|j: int| 0 <= j < ws.len() && ws[j] == v;
            let i = if j < k {
                j
            } else {
                j - 1
            };
            assert(r[i] == v);
        }
    }
}

/// A working set with one more row.
pub proof fn lemma_ws_push(ws: Seq<usize>, b: usize)
    requires
        ws.no_duplicates(),
        !ws.contains(b),
    ensures
        ws.push(b).no_duplicates(),
        forall|v: usize| #[trigger] ws.push(b).contains(v) == (ws.contains(v) || v == b),
{
    let r = ws.push(b);
    assert forall|v: usize| #[trigger] r.contains(v) == (ws.contains(v) || v == b) by {
        if ws.contains(v) {
            let j = choose|j: int| 0 <= j < ws.len() && ws[j] == v;
            assert(r[j] == v);
        }
        if v == b {
            assert(r[ws.len() as int] == v);
        }
    }
    assert forall|i: int, j: int| 0 <= i < r.len() && 0 <= j < r.len() && i != j implies r[i]
        != r[j] by {
        if i == ws.len() {
            assert(ws.contains(ws[j]));
        }
        if j == ws.len() {
            assert(ws.contains(ws[i]));
        }
    }
}

fn drop_row<S: Scalar>(q: &QpProblem<S>, w: AsWork<S>, k: usize) -> (r: AsWork<S>)
    requires
        q@.wf(),
        w.wf(q@),
        k < w@.ws.len(),
    ensures
        r@ == drop_s(q@, w@, k as int),
        r.wf(q@),
{
    let mut w = w;
    let ghost (w0, marks0) = (w@, w.in_ws@);
    proof {
        lemma_ws_remove(w0.ws, k as int);
        lemma_remove_wf(w0.fac, q@.be.len() + k, q@.n());
    }
    let total = w.fac.len();
    let m_iq = w.in_ws.len();
    w.fac.remove(q.be.len() + k);
    let i = w.ws[k];
    w.in_ws[i] = false;
    w.ws.remove(k);
    assert forall|j: int| 0 <= j < w.in_ws@.len() implies #[trigger] w.in_ws@[j] == w.ws@.contains(
        j as usize,
    ) by {
        if j != i {
            assert(w.in_ws@[j] == marks0[j]);
        }
    }
    assert(w.wf(q@));
    w
}

fn add_row<S: Scalar>(q: &QpProblem<S>, w: AsWork<S>, b: usize, chol: &Vec<Vec<S>>) -> (r: (
    AsWork<S>,
    bool,
))
    requires
        q@.wf(),
        w.wf(q@),
        b < q@.bi.len(),
        !w@.ws.contains(b),
        chol@.len() == q@.n(),
        lower_rows(deep(*chol)),
    ensures
        match try_push_s(w@.fac, q@.ai.rows[b as int], deep(*chol)) {
            Some(f) => r.1 && r.0@ == (AsState { x: w@.x, fac: f, ws: w@.ws.push(b) }),
            None => !r.1 && r.0@ == w@,
        },
        r.0.wf(q@),
{
    let mut w = w;
    let ghost (w0, marks0) = (w@, w.in_ws@);
    let m_iq = w.in_ws.len();
    let row = q.ai.row(b);
    if w.fac.try_push(row, chol) {
        proof {
            lemma_ws_push(w0.ws, b);
        }
        w.ws.push(b);
        w.in_ws[b] = true;
        assert forall|j: int| 0 <= j < w.in_ws@.len() implies #[trigger] w.in_ws@[j]
            == w.ws@.contains(j as usize) by {
            if j != b {
                assert(w.in_ws@[j] == marks0[j]);
            }
        }
        assert(w.wf(q@));
        (w, true)
    } else {
        (w, false)
    }
}

fn advance<S: Backend>(ctx: &AsContext<S>, w: AsWork<S>, p: &Vec<S>, iter: usize) -> (r: AsTurn<S>)
    requires
        ctx@.wf(),
        w.wf(ctx@.q),
        p@.len() == ctx@.q.n(),
    ensures
        r.view() == advance_s(ctx@, w@, p@, iter),
        r.wf(ctx@.q),
{
    let q = ctx.q;
    let m_iq = q.bi.len();
    proof {
        lemma_step_length_range(q@, w@.x, p@, w@.ws, *ctx.cfg, q@.bi.len());
    }
    let (alpha, blocking) = step_length(q, &w.x, p, &w.in_ws, ctx.cfg, Ghost(w@.ws));
    let mut w = w;
    let ghost w0 = w@;
    w.x = vadd(&w.x, &vscale(alpha, p));
    assert(w.wf(q@));
    match blocking {
        None => AsTurn::Go(w),
        Some(b) => {
            let free = w.fac.len() == 0;
            let (w, added) = add_row(q, w, b, ctx.chol.rows_ref());
            if added || free {
                AsTurn::Go(w)
            } else if w.ws.len() > 0 {
                let last = w.ws.len() - 1;
                AsTurn::Go(drop_row(q, w, last))
            } else {
                let (s, stored) = give_up(ctx, w, QpStatus::NumericalFailure, iter);
                AsTurn::Stop(s, stored)
            }
        },
    }
}

fn as_step<S: Backend>(ctx: &AsContext<S>, w: AsWork<S>, iter: usize) -> (r: AsTurn<S>)
    requires
        ctx@.wf(),
        w.wf(ctx@.q),
    ensures
        r.view() == as_step_s(ctx@, w@, iter),
        r.wf(ctx@.q),
{
    let q = ctx.q;
    let grad = vadd(&ctx.h_it.apply(&w.x), q.c);
    let res = chol_solve(ctx.chol.rows_ref(), &vneg(&grad));
    if w.fac.len() == 0 {
        if norm(&res).less_than(ctx.cfg.optimality_tol) {
            finish(ctx, w, vzeros(q.be.len()), vzeros(q.bi.len()), iter)
        } else {
            advance(ctx, w, &res, iter)
        }
    } else {
        let nu = w.fac.solve_schur(&w.fac.dot_rows(&res));
        let p = w.fac.project(&res, &nu);
        if norm(&p).less_than(ctx.cfg.optimality_tol) {
            proof {
                lemma_leave_range(ctx@, w@, nu@, iter);
            }
            match leave(ctx, &w, &nu, iter) {
                None => {
                    let le = slice(&nu, 0, q.be.len());
                    let li = scatter(&vzeros(q.bi.len()), &w.ws, &nu, q.be.len());
                    proof {
                        lemma_scatter_len(
                            vzeros_s::<S>(q@.bi.len()),
                            w@.ws,
                            nu@,
                            q@.be.len(),
                            w@.ws.len(),
                        );
                    }
                    finish(ctx, w, le, li, iter)
                },
                Some(k) => AsTurn::Go(drop_row(q, w, k)),
            }
        } else {
            advance(ctx, w, &p, iter)
        }
    }
}

fn as_run<S: Backend>(ctx: &AsContext<S>, w: AsWork<S>) -> (r: (QpSolution<S>, QpWorkspace<S>))
    requires
        ctx@.wf(),
        w.wf(ctx@.q),
    ensures
        (AsOut { sol: r.0@, warm: r.1@ }) == as_run_s(ctx@, w@, 0),
        r.0@.x.len() == ctx@.q.n(),
{
    let mut cur = w;
    let mut iter: usize = 0;
    while iter < ctx.cfg.max_iters
        invariant
            ctx@.wf(),
            cur.wf(ctx@.q),
            iter <= ctx.cfg.max_iters,
            as_run_s(ctx@, cur@, iter) == as_run_s(ctx@, w@, 0),
        decreases ctx.cfg.max_iters - iter,
    {
        match as_step(ctx, cur, iter) {
            AsTurn::Stop(s, stored) => {
                return (s, stored);
            },
            AsTurn::Go(next) => {
                cur = next;
            },
        }
        iter += 1;
    }
    give_up(ctx, cur, QpStatus::MaxIterations, ctx.cfg.max_iters)
}

fn eq_factor<S: Scalar>(q: &QpProblem<S>, chol: &Vec<Vec<S>>) -> (r: Option<ActiveFactor<S>>)
    requires
        q@.wf(),
        chol@.len() == q@.n(),
        lower_rows(deep(*chol)),
    ensures
        match r {
            Some(f) => eq_factor_s(q@, deep(*chol), q@.be.len()) == Some(f@) && f@.wf(q@.n())
                && f@.len() == q@.be.len(),
            None => eq_factor_s(q@, deep(*chol), q@.be.len()) is None,
        },
{
    let mut fac: ActiveFactor<S> = ActiveFactor::with_capacity(q.be.len());
    let mut i: usize = 0;
    while i < q.be.len()
        invariant
            q@.wf(),
            chol@.len() == q@.n(),
            lower_rows(deep(*chol)),
            i <= q.be@.len(),
            eq_factor_s(q@, deep(*chol), i as nat) == Some(fac@),
            fac@.wf(q@.n()),
            fac@.len() == i,
        decreases q.be@.len() - i,
    {
        if !fac.try_push(q.ae.row(i), chol) {
            proof {
                lemma_eq_factor_none(q@, deep(*chol), (i + 1) as nat, q@.be.len());
            }
            return None;
        }
        i += 1;
    }
    Some(fac)
}

proof fn lemma_eq_factor_none<T: Arith>(q: Qp<T>, chol: Seq<Seq<T>>, i: nat, n: nat)
    requires
        i <= n,
        eq_factor_s(q, chol, i) is None,
    ensures
        eq_factor_s(q, chol, n) is None,
    decreases n,
{
    if i < n {
        lemma_eq_factor_none(q, chol, i, (n - 1) as nat);
    }
}

fn seeded<S: Scalar>(
    q: &QpProblem<S>,
    chol: &Vec<Vec<S>>,
    fac: ActiveFactor<S>,
    x: Vec<S>,
    seed: &Vec<usize>,
) -> (w: AsWork<S>)
    requires
        q@.wf(),
        chol@.len() == q@.n(),
        lower_rows(deep(*chol)),
        fac@.wf(q@.n()),
        fac@.len() == q@.be.len(),
        x@.len() == q@.n(),
        forall|k: int| 0 <= k < seed@.len() ==> #[trigger] seed@[k] < q@.bi.len(),
    ensures
        w.wf(q@),
        w@.x == x@,
        (w@.fac, w@.ws) == seeded_s(q@, deep(*chol), fac@, seed@, seed@.len()),
{
    let ghost f0 = fac@;
    let mut w = AsWork { x, fac, ws: Vec::new(), in_ws: vfill(q.bi.len(), false) };
    assert(w@.ws =~= Seq::empty());
    let mut k: usize = 0;
    while k < seed.len()
        invariant
            q@.wf(),
            chol@.len() == q@.n(),
            lower_rows(deep(*chol)),
            forall|k: int| 0 <= k < seed@.len() ==> #[trigger] seed@[k] < q@.bi.len(),
            k <= seed@.len(),
            w.wf(q@),
            w@.x == x@,
            (w@.fac, w@.ws) == seeded_s(q@, deep(*chol), f0, seed@, k as nat),
        decreases seed@.len() - k,
    {
        let i = seed[k];
        if !w.in_ws[i] {
            let (next, _added) = add_row(q, w, i, chol);
            w = next;
        }
        k += 1;
    }
    w
}

/// What is stored where no working set was built.
fn stored_point<S: Scalar>(sol: &QpSolution<S>) -> (w: QpWorkspace<S>)
    ensures
        w@ == stored_point_s(sol@),
{
    let none: Vec<usize> = Vec::new();
    assert(none@ =~= Seq::<usize>::empty());
    QpWorkspace::of(vcopy(&sol.x), none)
}

/// The primal active-set solve. `prior` is the state that an earlier solve
/// stored; the second result is the state to store after this one, however it
/// ended.
pub fn solve_qp_active_set<S: Backend>(
    q: &QpProblem<S>,
    x0: Option<&Vec<S>>,
    cfg: &QpConfig<S>,
    prior: Option<&QpWorkspace<S>>,
) -> (r: (QpSolution<S>, QpWorkspace<S>))
    requires
        q@.wf(),
        x0_fits_s(q@, opt_vec_ref(x0), *cfg, opt_warm(prior)),
    ensures
        (AsOut { sol: r.0@, warm: r.1@ }) == active_set_s(
            q@,
            opt_vec_ref(x0),
            *cfg,
            opt_warm(prior),
        ),
        r.0@.x.len() == q@.n(),
        r.1@.x == Some(r.0@.x),
{
    proof {
        lemma_stored_point(q@, opt_vec_ref(x0), *cfg, opt_warm(prior));
    }
    let (chol, ridge) = match prepare(q.h) {
        Some(p) => p,
        None => {
            let sol = fail(q, QpStatus::NumericalFailure);
            let stored = stored_point(&sol);
            return (sol, stored);
        },
    };
    let ridged = S::zero().less_than(ridge);
    let shifted;
    let h_it: &Matrix<S> = if ridged {
        shifted = q.h.shift_diag(ridge);
        &shifted
    } else {
        q.h
    };
    let ctx = AsContext { q, h_it, chol: &chol, ridged, cfg };
    let (x, seed) = start(q, x0, cfg, prior);
    if !feasible(q, &x, cfg) {
        let sol = fail(q, QpStatus::Infeasible);
        let stored = stored_point(&sol);
        return (sol, stored);
    }
    let fac = match eq_factor(q, chol.rows_ref()) {
        Some(f) => f,
        None => {
            let le = vzeros(q.be.len());
            let li = vzeros(q.bi.len());
            let sol = make_sol(q, x, le, li, QpStatus::NumericalFailure, 0);
            let stored = stored_point(&sol);
            return (sol, stored);
        },
    };
    let rows = match seed {
        Some(rows) => rows,
        None => active_at(q, &x, cfg),
    };
    let w = seeded(q, chol.rows_ref(), fac, x, &rows);
    as_run(&ctx, w)
}

} // verus!
