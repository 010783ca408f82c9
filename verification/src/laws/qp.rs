//! Laws of the quadratic-programming entry points.

use vstd::prelude::*;

use crate::active_start::prepare_s;
use crate::admm::{admm_ctx_s, admm_run_s, admm_start_s, admm_system_s};
use crate::conic::clarabel_s;
use crate::dense::{
    dot_s, identity_s, lemma_mat_eq, mscale_s, mvec_s, norm_sq_s, shift_diag_s, vscale_s, vsub_s,
    vzeros_s, Mat,
};
use crate::exact::{
    distrib, lemma_dot_add, lemma_dot_comm, lemma_dot_scale, lemma_dot_zero, lemma_mvec_zero,
    lemma_shift_mvec,
};
use crate::ipm::ipm_start_s;
use crate::kernels::DenseKernels;
use crate::laws::active_set::law_prepared;
use crate::laws::admm::law_admm_iterations;
use crate::laws::ipm::law_ipm_exit;
use crate::laws::kkt::lemma_half;
use crate::laws::working_set::law_active_set_exit;
use crate::qp::{objective_s, solve_qp_s, Qp, QpArgs, QpConfig, QpSolver, Warm};
use crate::scalar::{lit_s, Arith};

verus! {

/// Without a positive weight, or without a point to be drawn to, the problem is
/// solved as it is stated.
pub proof fn law_prox_off<T: Arith>(args: QpArgs<T>, cfg: QpConfig<T>)
    requires
        args.x0 is None || !T::zero_s().lt_s(cfg.prox_weight),
    ensures
        args.problem(cfg).h == args.h,
        args.problem(cfg).c == args.c,
{
}

/// The proximal weight changes neither constraint block.
pub proof fn law_prox_constraints<T: Arith>(args: QpArgs<T>, cfg: QpConfig<T>, other: QpConfig<T>)
    ensures
        args.problem(cfg).ae == args.problem(other).ae,
        args.problem(cfg).be == args.problem(other).be,
        args.problem(cfg).ai == args.problem(other).ai,
        args.problem(cfg).bi == args.problem(other).bi,
{
}

/// With the proximal term on, the cost that is minimised is the stated one plus
/// `(w / 2) |x - x0|^2`, up to a constant.
pub proof fn law_prox_cost(args: QpArgs<real>, cfg: QpConfig<real>, x: Seq<real>)
    requires
        args.wf(),
        cfg.prox_weight > 0real,
        args.x0 is Some,
        args.x0->0.len() == args.c.len(),
        x.len() == args.c.len(),
    ensures
        ({
            let q = args.problem(cfg);
            let (w, x0) = (cfg.prox_weight, args.x0->0);
            objective_s(q.h, q.c, x) == objective_s(args.h, args.c, x) + (1real / 2real) * (w
                * norm_sq_s(vsub_s(x, x0))) - (1real / 2real) * (w * norm_sq_s(x0))
        }),
{
    lemma_half();
    let (w, x0, n) = (cfg.prox_weight, args.x0->0, args.c.len());
    let q = args.problem(cfg);
    let shifted = shift_diag_s(args.h, w);
    assert forall|i: int, j: int| 0 <= i < n && 0 <= j < n implies #[trigger] q.h.at(i, j)
        == shifted.at(i, j) by {
        let id = identity_s::<real>(n);
        assert(mscale_s(w, id).at(i, j) == w * id.at(i, j));
        assert(w * 0real == 0real) by (nonlinear_arith);
        assert(w * 1real == w) by (nonlinear_arith);
    }
    lemma_mat_eq(q.h, shifted);
    lemma_shift_mvec(args.h, w, x);
    let hx = mvec_s(args.h, x);
    lemma_dot_add(x, hx, vscale_s(w, x));
    lemma_dot_scale(x, w, x);
    let wx0 = vscale_s(w, x0);
    lemma_dot_add(x, args.c, wx0);
    lemma_dot_scale(x, w, x0);
    let d = vsub_s(x, x0);
    lemma_dot_add(d, x, x0);
    lemma_dot_add(x, x, x0);
    lemma_dot_add(x0, x, x0);
    lemma_dot_comm(x, x0);
    let (a, b, c) = (dot_s(x, x), dot_s(x0, x), dot_s(x0, x0));
    assert(norm_sq_s(d) == a - b - b + c);
    distrib(w, a - b - b, c);
    distrib(w, a - b, b);
    distrib(w, a, b);
}

/// Only the active-set method looks at a workspace or fills one.
pub proof fn law_workspace_ignored<T: DenseKernels>(
    args: QpArgs<T>,
    cfg: QpConfig<T>,
    prior: Option<Warm<T>>,
)
    requires
        cfg.solver != QpSolver::ActiveSet,
    ensures
        solve_qp_s(args, cfg, prior) == solve_qp_s(args, cfg, None),
        solve_qp_s(args, cfg, prior).1 is None,
{
    reveal(solve_qp_s);
}

/// A cleared workspace makes the next solve start cold.
pub proof fn law_workspace_cleared<T: DenseKernels>(args: QpArgs<T>, cfg: QpConfig<T>)
    ensures
        solve_qp_s(args, cfg, Some(Warm::cold())) == solve_qp_s(args, cfg, None),
{
    reveal(solve_qp_s);
    crate::laws::working_set::law_cleared_is_cold(args.problem(cfg), args.x0, cfg);
}

/// The built-in solvers report at most the allowed iterations.
///
/// The factor of the Hessian is assumed to have the Hessian's shape, as
/// [`crate::kernels::Backend::cholesky`] promises.
pub proof fn law_iterations<T: DenseKernels>(
    args: QpArgs<T>,
    cfg: QpConfig<T>,
    prior: Option<Warm<T>>,
)
    requires
        args.wf(),
        args.x0_ok(cfg, prior),
        args.problem(cfg).bi.len() <= usize::MAX,
        cfg.solver != QpSolver::Clarabel,
        prepare_s(args.problem(cfg).h) matches Some(pre) ==> pre.0.shaped(
            args.c.len(),
            args.c.len(),
        ),
    ensures
        solve_qp_s(args, cfg, prior).0.iterations <= cfg.max_iters,
{
    reveal(solve_qp_s);
    let q = args.problem(cfg);
    assert(q.wf());
    match cfg.solver {
        QpSolver::ActiveSet => {
            law_active_set_exit(q, args.x0, cfg, prior);
        },
        QpSolver::Ipm => {
            law_ipm_exit(q, cfg, ipm_start_s(q), 0);
        },
        QpSolver::Admm => {
            if q.be.len() + q.bi.len() > 0 {
                let p = admm_ctx_s(q, cfg);
                match T::cholesky_s(admm_system_s(p, lit_s::<T>(10, 0))) {
                    Some(l) => {
                        law_admm_iterations(p, admm_start_s(p, l), 0);
                    },
                    None => {},
                }
            }
        },
        QpSolver::Clarabel => {},
    }
}

proof fn lemma_objective_zero(h: Mat<real>, c: Seq<real>)
    requires
        h.shaped(c.len(), c.len()),
    ensures
        objective_s(h, c, vzeros_s(c.len())) == 0real,
{
    lemma_half();
    lemma_mvec_zero(h);
    lemma_dot_zero(vzeros_s::<real>(c.len()), c.len());
    lemma_dot_zero(c, c.len());
    assert((1real / 2real) * 0real == 0real);
}

/// The reported objective is the stated cost at the reported point, whichever
/// solver ran and however it ended.
pub proof fn law_objective(args: QpArgs<real>, cfg: QpConfig<real>, prior: Option<Warm<real>>)
    requires
        args.wf(),
        args.x0_ok(cfg, prior),
        args.problem(cfg).bi.len() <= usize::MAX,
    ensures
        ({
            let sol = solve_qp_s(args, cfg, prior).0;
            sol.objective == objective_s(args.h, args.c, sol.x)
        }),
{
    reveal(solve_qp_s);
    let q = args.problem(cfg);
    assert(q.wf());
    lemma_objective_zero(q.h, q.c);
    match cfg.solver {
        QpSolver::ActiveSet => {
            match prepare_s(q.h) {
                Some(pre) => {
                    law_prepared(q.h, pre);
                },
                None => {},
            }
            law_active_set_exit(q, args.x0, cfg, prior);
        },
        QpSolver::Ipm => {
            law_ipm_exit(q, cfg, ipm_start_s(q), 0);
        },
        QpSolver::Admm => {
            if q.be.len() + q.bi.len() > 0 {
                let p = admm_ctx_s(q, cfg);
                match real::cholesky_s(admm_system_s(p, lit_s::<real>(10, 0))) {
                    Some(l) => {
                        lemma_admm_objective(p, admm_start_s(p, l), 0);
                    },
                    None => {},
                }
            }
        },
        QpSolver::Clarabel => {},
    }
}

proof fn lemma_admm_objective(
    p: crate::admm::AdmmCtx<real>,
    st: crate::admm::AdmmState<real>,
    iter: usize,
)
    requires
        iter <= p.cfg.max_iters,
    ensures
        admm_run_s(p, st, iter).objective == objective_s(
            p.q.h,
            p.q.c,
            admm_run_s(p, st, iter).x,
        ),
    decreases p.cfg.max_iters - iter,
{
    if iter < p.cfg.max_iters {
        let next = crate::admm::admm_move_s(p, st);
        let r = crate::admm::residuals_s(p, next);
        if !crate::admm::admm_done_s(r, p.cfg) {
            if (iter + 1) % 3 == 0 {
                lemma_admm_objective(
                    p,
                    crate::admm::retune_s(p, next, r),
                    (iter + 1) as usize,
                );
            } else {
                lemma_admm_objective(p, next, (iter + 1) as usize);
            }
        }
    }
}

/// The answer of every solver has the length of the decision variable.
pub proof fn law_answer_length(args: QpArgs<real>, cfg: QpConfig<real>, prior: Option<Warm<real>>)
    requires
        args.wf(),
        args.x0_ok(cfg, prior),
        args.problem(cfg).bi.len() <= usize::MAX,
    ensures
        solve_qp_s(args, cfg, prior).0.x.len() == args.c.len(),
{
    reveal(solve_qp_s);
    let q = args.problem(cfg);
    assert(q.wf());
    match cfg.solver {
        QpSolver::ActiveSet => {
            match prepare_s(q.h) {
                Some(pre) => {
                    law_prepared(q.h, pre);
                },
                None => {},
            }
            crate::laws::working_set::lemma_start(q, args.x0, cfg, prior);
            law_active_set_exit(q, args.x0, cfg, prior);
        },
        QpSolver::Ipm => {
            crate::laws::ipm::law_ipm(q, cfg);
        },
        QpSolver::Admm => {
            crate::laws::admm::law_admm(q, cfg);
        },
        QpSolver::Clarabel => {
            crate::kernels::lemma_conic_fits(crate::conic::conic_problem_s(q, cfg));
        },
    }
}

/// The conic solver's answer never carries a negative inequality multiplier.
pub proof fn law_conic_multipliers(q: Qp<real>, cfg: QpConfig<real>)
    ensures
        forall|i: int|
            0 <= i < q.bi.len() ==> #[trigger] clarabel_s(q, cfg).lambda_iq[i] >= 0real,
{
}

/// The problem that is solved without the proximal term is the one that is
/// stated: each constraint block that is given is a block of the problem, and one
/// that is not given has no rows.
pub proof fn law_stated_problem(args: QpArgs<real>, cfg: QpConfig<real>)
    requires
        args.wf(),
    ensures
        ({
            let q = args.problem(cfg);
            &&& q.wf() || cfg.prox_weight > 0real && args.x0 is Some
            &&& (args.a_eq matches Some(a) ==> q.ae == a && args.b_eq == Some(q.be))
            &&& args.a_eq is None ==> q.ae.nrows() == 0 && q.be.len() == 0
            &&& (args.a_iq matches Some(a) ==> q.ai == a && args.b_iq == Some(q.bi))
            &&& args.a_iq is None ==> q.ai.nrows() == 0 && q.bi.len() == 0
            &&& cfg.prox_weight <= 0real || args.x0 is None ==> q.h == args.h && q.c == args.c
        }),
{
}

} // verus!
