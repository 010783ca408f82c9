//! A proximal solve is the solve of the augmented problem.

use vstd::prelude::*;

use crate::active_set::{
    active_set_s, advance_s, as_run_s, as_step_s, bland_s, context_s, eq_factor_s, finish_s,
    kkt_rhs_s, kkt_s, leave_s, negative_s, polish_dual_s, polish_keeps_s, polish_ok_s, scatter_s,
    seeded_s, steepest_s, step_length_s, AsCtx, AsNext, AsState,
};
use crate::active_start::{
    active_at_s, feasible_s, iq_feasible_s, iq_off_s, near_s, prepare_s, projector_s, push_into_s,
    push_run_s, push_step_s, reproject_s, start_s, still_tight_s, warm_start_s,
};
use crate::admm::{
    admm_ctx_s, admm_done_s, admm_move_s, admm_run_s, admm_s, admm_start_s, admm_system_s,
    residuals_s, retune_s, AdmmCtx, AdmmState,
};
use crate::conic::clarabel_s;
use crate::dense::{
    mmul_s, mvec_s, slice_s, transpose_s, vadd_s, vneg_s, vscale_s, vsub_s, vzeros_s, Mat,
};
use crate::factor::{dot_rows_s, project_s, solve_schur_s};
use crate::ipm::{ipm_done_s, ipm_run_s, ipm_start_s, ipm_step_s, IpmState};
use crate::kernels::{lu_vec_s, DenseKernels};
use crate::qp::{backend_s, objective_s, prox_h_s, solve_qp_s, Qp, QpArgs, QpConfig, QpSolver, Warm};
use crate::scalar::{lit_s, Arith};
use crate::triangular::chol_solve_s;

verus! {

/// The parameters that the solvers themselves look at are the same.
spec fn same_tests<T>(a: QpConfig<T>, b: QpConfig<T>) -> bool {
    &&& a.solver == b.solver
    &&& a.max_iters == b.max_iters
    &&& a.feasibility_tol == b.feasibility_tol
    &&& a.optimality_tol == b.optimality_tol
}

proof fn lemma_push_run_same<T: Arith>(
    x: Seq<T>,
    p: Mat<T>,
    ai: Mat<T>,
    bi: Seq<T>,
    a: QpConfig<T>,
    b: QpConfig<T>,
    k: nat,
)
    requires
        same_tests(a, b),
    ensures
        push_run_s(x, p, ai, bi, a, k) == push_run_s(x, p, ai, bi, b, k),
    decreases k,
{
    if k > 0 {
        match push_step_s(x, p, ai, bi, a) {
            Ok(y) => {
                lemma_push_run_same(y, p, ai, bi, a, b, (k - 1) as nat);
            },
            Err(_) => {},
        }
    }
}

proof fn lemma_push_into_same<T: DenseKernels>(
    x: Seq<T>,
    q: Qp<T>,
    a: QpConfig<T>,
    b: QpConfig<T>,
)
    requires
        same_tests(a, b),
    ensures
        push_into_s(x, q, a) == push_into_s(x, q, b),
{
    match projector_s(q.ae) {
        None => {},
        Some(p) => {
            lemma_push_run_same(x, p, q.ai, q.bi, a, b, 200);
        },
    }
}

proof fn lemma_still_tight_same<T: Arith>(
    q: Qp<T>,
    x: Seq<T>,
    ws: Seq<usize>,
    n: nat,
    a: QpConfig<T>,
    b: QpConfig<T>,
)
    requires
        same_tests(a, b),
    ensures
        still_tight_s(q, x, ws, n, a) == still_tight_s(q, x, ws, n, b),
    decreases n,
{
    if n > 0 {
        lemma_still_tight_same(q, x, ws, (n - 1) as nat, a, b);
    }
}

proof fn lemma_active_at_same<T: Arith>(
    q: Qp<T>,
    x: Seq<T>,
    n: nat,
    a: QpConfig<T>,
    b: QpConfig<T>,
)
    requires
        same_tests(a, b),
    ensures
        active_at_s(q, x, n, a) == active_at_s(q, x, n, b),
    decreases n,
{
    if n > 0 {
        lemma_active_at_same(q, x, (n - 1) as nat, a, b);
        assert(near_s(q, x, n - 1, a) == near_s(q, x, n - 1, b));
    }
}

proof fn lemma_feasible_same<T: Arith>(q: Qp<T>, x: Seq<T>, a: QpConfig<T>, b: QpConfig<T>)
    requires
        same_tests(a, b),
    ensures
        iq_feasible_s(q, x, a) == iq_feasible_s(q, x, b),
        feasible_s(q, x, a) == feasible_s(q, x, b),
{
    if iq_feasible_s(q, x, a) {
        assert forall|i: int| 0 <= i < q.bi.len() implies !#[trigger] iq_off_s(q, x, i, b) by {
            assert(!iq_off_s(q, x, i, a));
        }
    }
    if iq_feasible_s(q, x, b) {
        assert forall|i: int| 0 <= i < q.bi.len() implies !#[trigger] iq_off_s(q, x, i, a) by {
            assert(!iq_off_s(q, x, i, b));
        }
    }
}

proof fn lemma_start_same<T: DenseKernels>(
    q: Qp<T>,
    x0: Option<Seq<T>>,
    prior: Option<Warm<T>>,
    a: QpConfig<T>,
    b: QpConfig<T>,
)
    requires
        same_tests(a, b),
    ensures
        start_s(q, x0, a, prior) == start_s(q, x0, b, prior),
{
    match prior {
        Some(w) => {
            assert(reproject_s(q, w.x->0, a) == reproject_s(q, w.x->0, b));
            match reproject_s(q, w.x->0, a) {
                Some(xw) => {
                    lemma_push_into_same(xw, q, a, b);
                    let m = push_into_s(xw, q, a).0;
                    lemma_still_tight_same(q, m, w.working_set, w.working_set.len(), a, b);
                },
                None => {},
            }
        },
        None => {},
    }
    let at = transpose_s(q.ae);
    match lu_vec_s(mmul_s(q.ae, at), q.be) {
        Some(y) => {
            lemma_push_into_same(mvec_s(at, y), q, a, b);
            lemma_feasible_same(q, mvec_s(at, y), a, b);
        },
        None => {},
    }
    assert(warm_start_s(q, a, prior) == warm_start_s(q, b, prior));
}

proof fn lemma_step_length_same<T: Arith>(
    q: Qp<T>,
    x: Seq<T>,
    p: Seq<T>,
    ws: Seq<usize>,
    a: QpConfig<T>,
    b: QpConfig<T>,
    n: nat,
)
    requires
        same_tests(a, b),
    ensures
        step_length_s(q, x, p, ws, a, n) == step_length_s(q, x, p, ws, b, n),
    decreases n,
{
    if n > 0 {
        lemma_step_length_same(q, x, p, ws, a, b, (n - 1) as nat);
    }
}

proof fn lemma_leave_same<T: Arith>(
    nu: Seq<T>,
    m_eq: nat,
    ws: Seq<usize>,
    a: QpConfig<T>,
    b: QpConfig<T>,
    n: nat,
)
    requires
        same_tests(a, b),
    ensures
        bland_s(nu, m_eq, ws, a, n) == bland_s(nu, m_eq, ws, b, n),
        steepest_s(nu, m_eq, a, n) == steepest_s(nu, m_eq, b, n),
    decreases n,
{
    if n > 0 {
        lemma_leave_same(nu, m_eq, ws, a, b, (n - 1) as nat);
        assert(negative_s(nu, m_eq, n - 1, a) == negative_s(nu, m_eq, n - 1, b));
    }
}

proof fn lemma_polish_same<T: Arith>(
    q: Qp<T>,
    z: Seq<T>,
    ws: Seq<usize>,
    a: QpConfig<T>,
    b: QpConfig<T>,
)
    requires
        same_tests(a, b),
        polish_ok_s(q, z, ws, a),
    ensures
        polish_ok_s(q, z, ws, b),
{
    assert forall|i: int|
        0 <= i < q.bi.len() && !ws.contains(i as usize) implies #[trigger] polish_keeps_s(
        q,
        z,
        i,
        b,
    ) by {
        assert(polish_keeps_s(q, z, i, a));
    }
    assert forall|k: int| 0 <= k < ws.len() implies #[trigger] polish_dual_s(q, z, k, b) by {
        assert(polish_dual_s(q, z, k, a));
    }
}

/// The same solve with the parameters `b`.
spec fn with_cfg<T>(ctx: AsCtx<T>, b: QpConfig<T>) -> AsCtx<T> {
    AsCtx { cfg: b, ..ctx }
}

proof fn lemma_finish_same<T: DenseKernels>(
    ctx: AsCtx<T>,
    b: QpConfig<T>,
    st: AsState<T>,
    le: Seq<T>,
    li: Seq<T>,
    iter: usize,
)
    requires
        same_tests(ctx.cfg, b),
    ensures
        finish_s(ctx, st, le, li, iter) == finish_s(with_cfg(ctx, b), st, le, li, iter),
{
    let q = ctx.q;
    match lu_vec_s(
        kkt_s(q, st.ws),
        kkt_rhs_s(q, st.ws),
    ) {
        Some(z) => {
            if polish_ok_s(q, z, st.ws, ctx.cfg) {
                lemma_polish_same(q, z, st.ws, ctx.cfg, b);
            }
            if polish_ok_s(q, z, st.ws, b) {
                lemma_polish_same(q, z, st.ws, b, ctx.cfg);
            }
        },
        None => {},
    }
}

proof fn lemma_step_same<T: DenseKernels>(
    ctx: AsCtx<T>,
    b: QpConfig<T>,
    st: AsState<T>,
    iter: usize,
)
    requires
        same_tests(ctx.cfg, b),
    ensures
        as_step_s(ctx, st, iter) == as_step_s(with_cfg(ctx, b), st, iter),
{
    let q = ctx.q;
    let other = with_cfg(ctx, b);
    let grad = vadd_s(mvec_s(ctx.h_it, st.x), q.c);
    let r = chol_solve_s(ctx.chol, vneg_s(grad));
    let nu = solve_schur_s(st.fac, dot_rows_s(st.fac, r));
    let p = project_s(st.fac, r, nu);
    lemma_step_length_same(q, st.x, r, st.ws, ctx.cfg, b, q.bi.len());
    lemma_step_length_same(q, st.x, p, st.ws, ctx.cfg, b, q.bi.len());
    assert(advance_s(ctx, st, r, iter) == advance_s(other, st, r, iter));
    assert(advance_s(ctx, st, p, iter) == advance_s(other, st, p, iter));
    lemma_leave_same(nu, q.be.len(), st.ws, ctx.cfg, b, st.ws.len());
    assert(leave_s(ctx, st, nu, iter) == leave_s(other, st, nu, iter));
    let (ze, zi) = (
        vzeros_s::<T>(q.be.len()),
        vzeros_s::<T>(q.bi.len()),
    );
    lemma_finish_same(ctx, b, st, ze, zi, iter);
    lemma_finish_same(
        ctx,
        b,
        st,
        slice_s(nu, 0, q.be.len()),
        scatter_s(zi, st.ws, nu, q.be.len(), st.ws.len()),
        iter,
    );
}

proof fn lemma_run_same<T: DenseKernels>(
    ctx: AsCtx<T>,
    b: QpConfig<T>,
    st: AsState<T>,
    iter: usize,
)
    requires
        same_tests(ctx.cfg, b),
    ensures
        as_run_s(ctx, st, iter) == as_run_s(with_cfg(ctx, b), st, iter),
    decreases ctx.cfg.max_iters - iter,
{
    if iter < ctx.cfg.max_iters {
        lemma_step_same(ctx, b, st, iter);
        match as_step_s(ctx, st, iter) {
            AsNext::Go(next) => {
                lemma_run_same(ctx, b, next, (iter + 1) as usize);
            },
            AsNext::Stop(_) => {},
        }
    }
}

proof fn lemma_active_set_same<T: DenseKernels>(
    q: Qp<T>,
    x0: Option<Seq<T>>,
    prior: Option<Warm<T>>,
    a: QpConfig<T>,
    b: QpConfig<T>,
)
    requires
        same_tests(a, b),
    ensures
        active_set_s(q, x0, a, prior) == active_set_s(q, x0, b, prior),
{
    match prepare_s(q.h) {
        None => {},
        Some(pre) => {
            let ctx = context_s(q, a, pre.0, pre.1);
            let (x, seed) = start_s(q, x0, a, prior);
            lemma_start_same(q, x0, prior, a, b);
            lemma_feasible_same(q, x, a, b);
            lemma_active_at_same(q, x, q.bi.len(), a, b);
            assert(context_s(q, b, pre.0, pre.1) == with_cfg(ctx, b));
            match eq_factor_s(q, ctx.chol, q.be.len()) {
                None => {},
                Some(f) => {
                    let rows = match seed {
                        Some(rows) => rows,
                        None => active_at_s(q, x, q.bi.len(), a),
                    };
                    let (fac, ws) = seeded_s(q, ctx.chol, f, rows, rows.len());
                    lemma_run_same(ctx, b, AsState { x, fac, ws }, 0);
                },
            }
        },
    }
}

proof fn lemma_ipm_same<T: DenseKernels>(
    q: Qp<T>,
    a: QpConfig<T>,
    b: QpConfig<T>,
    st: IpmState<T>,
    iter: usize,
)
    requires
        same_tests(a, b),
    ensures
        ipm_run_s(q, a, st, iter) == ipm_run_s(q, b, st, iter),
    decreases a.max_iters - iter,
{
    if iter < a.max_iters {
        assert(ipm_done_s(q, st, a) == ipm_done_s(q, st, b));
        match ipm_step_s(q, st) {
            Some(next) => {
                lemma_ipm_same(q, a, b, next, (iter + 1) as usize);
            },
            None => {},
        }
    }
}

proof fn lemma_admm_same<T: DenseKernels>(
    p: AdmmCtx<T>,
    b: QpConfig<T>,
    st: AdmmState<T>,
    iter: usize,
)
    requires
        same_tests(p.cfg, b),
    ensures
        admm_run_s(p, st, iter) == admm_run_s(AdmmCtx { cfg: b, ..p }, st, iter),
    decreases p.cfg.max_iters - iter,
{
    let o = AdmmCtx { cfg: b, ..p };
    if iter < p.cfg.max_iters {
        let next = admm_move_s(p, st);
        assert(admm_move_s(o, st).z =~= next.z);
        assert(admm_move_s(o, st) == next);
        let r = residuals_s(p, next);
        assert(residuals_s(o, next) == r);
        assert(admm_done_s(r, p.cfg) == admm_done_s(r, b));
        assert(retune_s(o, next, r) == retune_s(p, next, r));
        lemma_admm_same(p, b, next, (iter + 1) as usize);
        lemma_admm_same(p, b, retune_s(p, next, r), (iter + 1) as usize);
    }
}

/// The proximal weight is no parameter of the solvers.
proof fn lemma_backend_same<T: DenseKernels>(
    q: Qp<T>,
    x0: Option<Seq<T>>,
    prior: Option<Warm<T>>,
    a: QpConfig<T>,
    b: QpConfig<T>,
)
    requires
        same_tests(a, b),
    ensures
        backend_s(q, x0, a, prior) == backend_s(q, x0, b, prior),
{
    match a.solver {
        QpSolver::ActiveSet => {
            lemma_active_set_same(q, x0, prior, a, b);
        },
        QpSolver::Ipm => {
            lemma_ipm_same(q, a, b, ipm_start_s(q), 0);
        },
        QpSolver::Admm => {
            let p = admm_ctx_s(q, a);
            let o = AdmmCtx { cfg: b, ..p };
            assert(admm_ctx_s(q, b) == o);
            match T::cholesky_s(admm_system_s(p, lit_s::<T>(10, 0))) {
                Some(l) => {
                    assert(admm_start_s(o, l) == admm_start_s(p, l));
                    lemma_admm_same(p, b, admm_start_s(p, l), 0);
                },
                None => {},
            }
            assert(admm_s(q, a) == admm_s(q, b));
        },
        QpSolver::Clarabel => {
            assert(clarabel_s(q, a) == clarabel_s(q, b));
        },
    }
}

/// A proximal solve towards `x0` is the plain solve of the problem with the
/// Hessian `H + w I` and the linear cost `c - w x0`, under the same constraints
/// and from the same workspace: the same point, multipliers, status and
/// iterations, and the same state to store. The objective alone is that of the
/// problem as it was stated.
///
/// That zero is not positive is what is asked of the arithmetic.
pub proof fn law_prox_is_augmented<T: DenseKernels>(
    args: QpArgs<T>,
    cfg: QpConfig<T>,
    prior: Option<Warm<T>>,
)
    requires
        args.proximal(cfg),
        args.x0->0.len() == args.c.len(),
        !T::zero_s().lt_s(T::zero_s()),
    ensures
        ({
            let plain = QpArgs {
                h: prox_h_s(args.h, cfg.prox_weight),
                c: vsub_s(
                    args.c,
                    vscale_s(cfg.prox_weight, args.x0->0),
                ),
                ..args
            };
            let off = QpConfig { prox_weight: T::zero_s(), ..cfg };
            let (s, s0) = (
                solve_qp_s(args, cfg, prior).0,
                solve_qp_s(plain, off, prior).0,
            );
            &&& s.x == s0.x
            &&& s.lambda_eq == s0.lambda_eq
            &&& s.lambda_iq == s0.lambda_iq
            &&& s.status == s0.status
            &&& s.iterations == s0.iterations
            &&& s.objective == objective_s(args.h, args.c, s.x)
            &&& solve_qp_s(args, cfg, prior).1 == solve_qp_s(plain, off, prior).1
        }),
{
    reveal(solve_qp_s);
    let plain = QpArgs { h: args.h_eff(cfg), c: args.c_eff(cfg), ..args };
    let off = QpConfig { prox_weight: T::zero_s(), ..cfg };
    assert(plain.problem(off) == args.problem(cfg));
    lemma_backend_same(args.problem(cfg), args.x0, prior, cfg, off);
}

} // verus!
