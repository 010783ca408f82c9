//! Why the active-set iterations get on: what a step, a blocked step and a
//! released row achieve, and when the iterations stop.

use vstd::prelude::*;

use crate::active_set::{
    active_set_s, advance_s, as_run_s, as_step_s, context_s, eq_factor_s, leave_s,
    lemma_leave_range, lemma_step_length_range, negative_s, seeded_s, step_length_s, AsCtx, AsNext,
    AsState,
};
use crate::active_start::{active_at_s, initial_feasible_s, iq_feasible_s, prepare_s};
use crate::dense::{
    dot_s, mmul_s, mvec_s, norm_s, norm_sq_s, transpose_s, vadd_s, vneg_s, vscale_s, vsub_s,
    vzeros_s, Mat,
};
use crate::exact::{
    lemma_adjoint, lemma_dot_add, lemma_dot_zero, lemma_mmul_mvec, lemma_mvec_add, lemma_mvec_zero,
    lemma_norm_sq_zero,
};
use crate::factor::{dot_rows_s, project_s, solve_schur_s, try_push_s, Fac};
use crate::kernels::is_regular;
use crate::laws::active_set::{
    good, law_iteration, law_prepared, law_steepest, lemma_eq_exact, sound,
};
use crate::laws::factor::{active_s, factors, law_step_exact};
use crate::laws::push::lemma_met;
use crate::laws::start::law_initial_feasible;
use crate::laws::tight::lemma_blocked;
use crate::laws::triangular::{law_gram_unique, lower_s};
use crate::laws::working_set::{law_bland, lemma_eq_factor};
use crate::qp::{row_dot_s, Qp, QpConfig, QpStatus};
use crate::scalar::{is_root, roots_exist, Arith};
use crate::triangular::chol_solve_s;

verus! {

/// The gradient of the cost that the iterations see.
pub open spec fn gradient_s(ctx: AsCtx<real>, x: Seq<real>) -> Seq<real> {
    vadd_s(mvec_s(ctx.h_it, x), ctx.q.c)
}

/// `nu` balances the gradient by the active rows.
pub open spec fn balances(ctx: AsCtx<real>, st: AsState<real>, nu: Seq<real>) -> bool {
    nu.len() == st.fac.len() && mvec_s(transpose_s(active_s(st.fac, ctx.q.n())), nu) == vneg_s(
        gradient_s(ctx, st.x),
    )
}

/// The point is at rest on its working set: the active rows balance the
/// gradient, so that no step along them lowers the cost.
pub open spec fn rests(ctx: AsCtx<real>, st: AsState<real>) -> bool {
    exists|nu: Seq<real>| balances(ctx, st, nu)
}

/// The step and the multipliers of an iteration.
pub open spec fn direction_s(ctx: AsCtx<real>, st: AsState<real>) -> (Seq<real>, Seq<real>) {
    let r = chol_solve_s(ctx.chol, vneg_s(gradient_s(ctx, st.x)));
    let nu = solve_schur_s(st.fac, dot_rows_s(st.fac, r));
    (project_s(st.fac, r, nu), nu)
}

/// A vector of length zero under a factored matrix vanishes.
pub proof fn lemma_definite(chol: Seq<Seq<real>>, h: Mat<real>, p: Seq<real>)
    requires
        factors(chol, h),
        p.len() == chol.len(),
        dot_s(p, mvec_s(h, p)) == 0real,
    ensures
        p == vzeros_s::<real>(p.len()),
{
    let (a, u) = (lower_s(chol), transpose_s(lower_s(chol)));
    let w = mvec_s(u, p);
    let n = p.len();
    lemma_mmul_mvec(a, u, p);
    crate::exact::lemma_transpose_twice(a);
    lemma_adjoint(u, p, w);
    assert(norm_sq_s(w) == 0real);
    assert forall|i: int| 0 <= i < w.len() implies w[i] == 0real by {
        lemma_norm_sq_zero(w, w.len(), i);
    }
    assert(w =~= vzeros_s::<real>(n));
    lemma_mvec_zero(a);
    lemma_mvec_zero(h);
    law_gram_unique(chol, p, vzeros_s::<real>(n));
}

/// At rest there is no step.
proof fn lemma_rest_step(ctx: AsCtx<real>, st: AsState<real>)
    requires
        sound(ctx),
        good(ctx, st),
        rests(ctx, st),
    ensures
        direction_s(ctx, st).0 == vzeros_s::<real>(ctx.q.n()),
{
    let g = gradient_s(ctx, st.x);
    let (p, nu) = direction_s(ctx, st);
    law_step_exact(st.fac, ctx.chol, ctx.h_it, g);
    let m = choose|m: Seq<real>| balances(ctx, st, m);
    let a = active_s(st.fac, ctx.q.n());
    let at = transpose_s(a);
    let d = vsub_s(m, nu);
    lemma_mvec_add(at, m, nu);
    let hp = mvec_s(ctx.h_it, p);
    assert(hp =~= mvec_s(at, d)) by {
        assert forall|i: int| 0 <= i < hp.len() implies hp[i] == mvec_s(at, d)[i] by {
            assert(vadd_s(hp, mvec_s(at, nu))[i] == vneg_s(g)[i]);
            assert(mvec_s(at, m)[i] == vneg_s(g)[i]);
        }
    }
    lemma_adjoint(a, p, d);
    assert(mvec_s(a, p) =~= dot_rows_s(st.fac, p));
    lemma_dot_zero(d, d.len());
    lemma_definite(ctx.chol, ctx.h_it, p);
}

/// A full step comes to rest.
proof fn lemma_full_step(ctx: AsCtx<real>, st: AsState<real>)
    requires
        sound(ctx),
        good(ctx, st),
    ensures
        rests(
            ctx,
            AsState {
                x: vadd_s(st.x, vscale_s(1real, direction_s(ctx, st).0)),
                fac: st.fac,
                ws: st.ws,
            },
        ),
{
    let g = gradient_s(ctx, st.x);
    let (p, nu) = direction_s(ctx, st);
    law_step_exact(st.fac, ctx.chol, ctx.h_it, g);
    let one = vscale_s(1real, p);
    assert forall|i: int| 0 <= i < p.len() implies one[i] == p[i] by {
        let v = p[i];
        assert(1real * v == v) by (nonlinear_arith);
    }
    assert(one =~= p);
    let next = AsState { x: vadd_s(st.x, one), fac: st.fac, ws: st.ws };
    lemma_mvec_add(ctx.h_it, st.x, p);
    let at = transpose_s(active_s(st.fac, ctx.q.n()));
    let lhs = mvec_s(at, nu);
    let rhs = vneg_s(gradient_s(ctx, next.x));
    assert forall|i: int| 0 <= i < lhs.len() implies lhs[i] == rhs[i] by {
        assert(vadd_s(mvec_s(ctx.h_it, p), lhs)[i] == vneg_s(g)[i]);
    }
    assert(lhs =~= rhs);
    assert(balances(ctx, next, nu));
}

pub proof fn lemma_norm_zero(n: nat)
    ensures
        norm_s(vzeros_s::<real>(n)) == 0real,
{
    let z = vzeros_s::<real>(n);
    lemma_dot_zero(z, n);
    let s = norm_sq_s(z);
    assert(is_root(s, 0real)) by {
        assert(0real * 0real == 0real) by (nonlinear_arith);
    }
    let v = norm_s(z);
    assert(is_root(s, v));
    assert(v == 0real) by (nonlinear_arith)
        requires
            v * v == 0real,
    ;
}

/// Every iteration that goes on gets on: either a full step brings the point to
/// rest on its working set; or the step ends at an inequality outside the
/// working set, which joins it where it is independent of the active rows; or
/// the point stays, and a row with a negative multiplier is released.
pub proof fn law_progress(ctx: AsCtx<real>, st: AsState<real>, iter: usize, next: AsState<real>)
    requires
        sound(ctx),
        roots_exist(),
        good(ctx, st),
        as_step_s(ctx, st, iter) == AsNext::Go(next),
    ensures
        ({
            let (p, nu) = direction_s(ctx, st);
            ||| next.ws == st.ws && next.fac == st.fac && rests(ctx, next)
            ||| exists|b: usize|
                {
                    &&& b < ctx.q.bi.len()
                    &&& !#[trigger] st.ws.contains(b)
                    &&& row_dot_s(ctx.q.ai, b as int, next.x) >= ctx.q.bi[b as int]
                    &&& match try_push_s(st.fac, ctx.q.ai.rows[b as int], ctx.chol) {
                        Some(_) => next.ws == st.ws.push(b),
                        None => st.fac.len() == 0 || next.ws == st.ws.drop_last(),
                    }
                }
            ||| next.x == st.x && norm_s(p) < ctx.cfg.optimality_tol && exists|k: int|
                0 <= k < st.ws.len() && #[trigger] nu[ctx.q.be.len() + k] < -ctx.cfg.optimality_tol
                    && next.ws == st.ws.remove(k)
        }),
{
    let q = ctx.q;
    let g = gradient_s(ctx, st.x);
    let r = chol_solve_s(ctx.chol, vneg_s(g));
    let (p, nu) = direction_s(ctx, st);
    law_step_exact(st.fac, ctx.chol, ctx.h_it, g);
    if st.fac.len() == 0 {
        lemma_no_rows(st.fac, r, nu);
    }
    if norm_s(p) < ctx.cfg.optimality_tol {
        lemma_leave_range(ctx, st, nu, iter);
        law_bland(nu, q.be.len(), st.ws, ctx.cfg, st.ws.len());
        law_steepest(nu, q.be.len(), ctx.cfg, st.ws.len());
        let k = leave_s(ctx, st, nu, iter)->Some_0;
        assert(next.ws == st.ws.remove(k));
        assert(nu[q.be.len() + k] < -ctx.cfg.optimality_tol);
    } else {
        assert(advance_s(ctx, st, p, iter) == AsNext::Go(next));
        let step = step_length_s(q, st.x, p, st.ws, ctx.cfg, q.bi.len());
        lemma_step_length_range(q, st.x, p, st.ws, ctx.cfg, q.bi.len());
        match step.1 {
            None => {
                lemma_full_step(ctx, st);
                lemma_unblocked(q, st.x, p, st.ws, ctx.cfg, q.bi.len());
            },
            Some(b) => {
                lemma_blocked(q, st.x, p, st.ws, ctx.cfg, q.bi.len());
                let a = q.ai.rows[b as int];
                lemma_dot_add(a, st.x, vscale_s(step.0, p));
                crate::exact::lemma_dot_scale(a, step.0, p);
                assert(next.x == vadd_s(st.x, vscale_s(step.0, p)));
                assert(!st.ws.contains(b)) by {
                    lemma_free(q, st.x, p, st.ws, ctx.cfg, q.bi.len());
                }
                if st.ws.len() > 0 {
                    assert(st.ws.remove(st.ws.len() - 1) =~= st.ws.drop_last());
                }
            },
        }
    }
}

/// Without active rows the step is the unconstrained one.
proof fn lemma_no_rows(f: Fac<real>, r: Seq<real>, nu: Seq<real>)
    requires
        f.len() == 0,
    ensures
        project_s(f, r, nu) == r,
{
}

/// A step that nothing blocks is full.
proof fn lemma_unblocked(
    q: Qp<real>,
    x: Seq<real>,
    p: Seq<real>,
    ws: Seq<usize>,
    cfg: QpConfig<real>,
    n: nat,
)
    ensures
        step_length_s(q, x, p, ws, cfg, n).1 is None ==> step_length_s(q, x, p, ws, cfg, n).0
            == 1real,
    decreases n,
{
    if n > 0 {
        lemma_unblocked(q, x, p, ws, cfg, (n - 1) as nat);
    }
}

/// The blocking row is not active.
proof fn lemma_free(
    q: Qp<real>,
    x: Seq<real>,
    p: Seq<real>,
    ws: Seq<usize>,
    cfg: QpConfig<real>,
    n: nat,
)
    ensures
        step_length_s(q, x, p, ws, cfg, n).1 matches Some(b) ==> !ws.contains(b),
    decreases n,
{
    if n > 0 {
        lemma_free(q, x, p, ws, cfg, (n - 1) as nat);
    }
}

/// At rest the iterations end with an optimum, unless a row of the working set
/// has a negative multiplier: then they release one and stay where they are.
pub proof fn law_rest_ends(ctx: AsCtx<real>, st: AsState<real>, iter: usize)
    requires
        sound(ctx),
        roots_exist(),
        good(ctx, st),
        rests(ctx, st),
        ctx.cfg.optimality_tol > 0real,
    ensures
        match as_step_s(ctx, st, iter) {
            AsNext::Stop(out) => out.sol.status == QpStatus::Optimal && out.sol.iterations == iter
                && (!ctx.ridged ==> out.sol.x == st.x),
            AsNext::Go(next) => next.x == st.x && exists|k: int|
                0 <= k < st.ws.len() && next.ws == #[trigger] st.ws.remove(k) && direction_s(
                    ctx,
                    st,
                ).1[ctx.q.be.len() + k] < -ctx.cfg.optimality_tol,
        },
{
    let q = ctx.q;
    let g = gradient_s(ctx, st.x);
    let r = chol_solve_s(ctx.chol, vneg_s(g));
    let (p, nu) = direction_s(ctx, st);
    lemma_rest_step(ctx, st);
    lemma_norm_zero(q.n());
    law_step_exact(st.fac, ctx.chol, ctx.h_it, g);
    if st.fac.len() == 0 {
        lemma_no_rows(st.fac, r, nu);
    }
    lemma_leave_range(ctx, st, nu, iter);
    law_bland(nu, q.be.len(), st.ws, ctx.cfg, st.ws.len());
    law_steepest(nu, q.be.len(), ctx.cfg, st.ws.len());
    match as_step_s(ctx, st, iter) {
        AsNext::Stop(_) => {},
        AsNext::Go(next) => {
            let k = leave_s(ctx, st, nu, iter)->Some_0;
            assert(next.ws == st.ws.remove(k));
        },
    }
}

/// A cold solve of a problem without inequalities succeeds, after one step at
/// most: where the Hessian factors, the equalities are independent and the
/// factor accepts their rows, the answer is optimal.
pub proof fn law_equality_only(q: Qp<real>, cfg: QpConfig<real>, pre: (Mat<real>, real))
    requires
        q.wf(),
        q.bi.len() == 0,
        cfg.feasibility_tol >= 0real,
        cfg.optimality_tol > 0real,
        cfg.max_iters >= 2,
        roots_exist(),
        prepare_s(q.h) == Some(pre),
        q.be.len() > 0 ==> is_regular(mmul_s(q.ae, transpose_s(q.ae))),
        eq_factor_s(q, pre.0.rows, q.be.len()) is Some,
    ensures
        ({
            let out = active_set_s(q, None, cfg, None);
            out.sol.status == QpStatus::Optimal && out.sol.iterations <= 1
        }),
{
    let ctx = context_s(q, cfg, pre.0, pre.1);
    law_prepared(q.h, pre);
    if q.be.len() > 0 {
        crate::laws::null_space::law_regular_solvable(
            mmul_s(q.ae, transpose_s(q.ae)),
            crate::kernels::as_col_s(q.be),
        );
    }
    law_initial_feasible(q, cfg);
    let x = initial_feasible_s(q, cfg);
    lemma_met(q, x, cfg);
    assert(iq_feasible_s(q, x, cfg));
    let f = eq_factor_s(q, ctx.chol, q.be.len())->Some_0;
    lemma_eq_exact(q, ctx.chol, ctx.h_it, q.be.len());
    lemma_eq_factor(q, ctx.chol, q.be.len());
    let rows = active_at_s(q, x, 0, cfg);
    let (fac, ws) = seeded_s(q, ctx.chol, f, rows, rows.len());
    assert(ws =~= Seq::<usize>::empty());
    let st = AsState { x, fac, ws };
    assert(good(ctx, st));
    assert(active_set_s(q, None, cfg, None) == as_run_s(ctx, st, 0));
    law_iteration(ctx, st, 0);
    reveal_with_fuel(as_run_s, 3);
    match as_step_s(ctx, st, 0) {
        AsNext::Go(next) => {
            law_progress(ctx, st, 0, next);
            assert(rests(ctx, next));
            law_rest_ends(ctx, next, 1);
        },
        AsNext::Stop(_) => {
            let p = direction_s(ctx, st).0;
            let step = step_length_s(q, st.x, p, st.ws, cfg, 0);
            assert(step == (1real, None::<usize>));
            if fac.len() == 0 {
                let g = gradient_s(ctx, st.x);
                let r = chol_solve_s(ctx.chol, vneg_s(g));
                lemma_no_rows(fac, r, direction_s(ctx, st).1);
            }
        },
    }
}

/// When the iterations stop: with an optimum, where the step is shorter than the
/// tolerance and no multiplier of the working set is below minus the tolerance;
/// or in failure, where the step runs into an inequality that depends on the
/// equalities alone.
pub proof fn law_stop(ctx: AsCtx<real>, st: AsState<real>, iter: usize)
    requires
        sound(ctx),
        roots_exist(),
        good(ctx, st),
        as_step_s(ctx, st, iter) is Stop,
    ensures
        ({
            let (p, nu) = direction_s(ctx, st);
            let out = as_step_s(ctx, st, iter)->Stop_0;
            &&& out.sol.iterations == iter
            &&& out.sol.status == QpStatus::Optimal || out.sol.status == QpStatus::NumericalFailure
            &&& out.sol.status == QpStatus::Optimal ==> norm_s(p) < ctx.cfg.optimality_tol
                && forall|k: int|
                0 <= k < st.ws.len() ==> #[trigger] nu[ctx.q.be.len() + k]
                    >= -ctx.cfg.optimality_tol
            &&& out.sol.status == QpStatus::NumericalFailure ==> st.ws.len() == 0 && ctx.q.be.len()
                > 0 && exists|b: int|
                0 <= b < ctx.q.bi.len() && (#[trigger] try_push_s(
                    st.fac,
                    ctx.q.ai.rows[b],
                    ctx.chol,
                )) is None && row_dot_s(ctx.q.ai, b, out.sol.x) >= ctx.q.bi[b]
        }),
{
    let q = ctx.q;
    let g = gradient_s(ctx, st.x);
    let r = chol_solve_s(ctx.chol, vneg_s(g));
    let (p, nu) = direction_s(ctx, st);
    law_step_exact(st.fac, ctx.chol, ctx.h_it, g);
    law_iteration(ctx, st, iter);
    if st.fac.len() == 0 {
        lemma_no_rows(st.fac, r, nu);
    }
    if norm_s(p) < ctx.cfg.optimality_tol {
        law_bland(nu, q.be.len(), st.ws, ctx.cfg, st.ws.len());
        law_steepest(nu, q.be.len(), ctx.cfg, st.ws.len());
        lemma_leave_range(ctx, st, nu, iter);
        assert forall|k: int| 0 <= k < st.ws.len() implies #[trigger] nu[q.be.len() + k]
            >= -ctx.cfg.optimality_tol by {
            assert(!negative_s(nu, q.be.len(), k, ctx.cfg));
        }
    } else {
        let step = step_length_s(q, st.x, p, st.ws, ctx.cfg, q.bi.len());
        lemma_step_length_range(q, st.x, p, st.ws, ctx.cfg, q.bi.len());
        let b = step.1->Some_0;
        lemma_blocked(q, st.x, p, st.ws, ctx.cfg, q.bi.len());
        let a = q.ai.rows[b as int];
        lemma_dot_add(a, st.x, vscale_s(step.0, p));
        crate::exact::lemma_dot_scale(a, step.0, p);
        assert(try_push_s(st.fac, q.ai.rows[b as int], ctx.chol) is None);
    }
}

/// The iterations are reported spent only where all were used.
pub proof fn law_spent(ctx: AsCtx<real>, st: AsState<real>, iter: usize)
    ensures
        as_run_s(ctx, st, iter).sol.status == QpStatus::MaxIterations ==> as_run_s(
            ctx,
            st,
            iter,
        ).sol.iterations == ctx.cfg.max_iters,
    decreases ctx.cfg.max_iters - iter,
{
    if iter < ctx.cfg.max_iters {
        match as_step_s(ctx, st, iter) {
            AsNext::Go(next) => {
                law_spent(ctx, next, (iter + 1) as usize);
            },
            AsNext::Stop(_) => {},
        }
    }
}

/// Which row is released: for the first `2 (m + n) + 10` iterations the one with
/// the most negative multiplier, from then on the lowest constraint number among
/// those below the tolerance. None is exactly where none is below it.
pub proof fn law_leaving(ctx: AsCtx<real>, st: AsState<real>, nu: Seq<real>, iter: usize)
    requires
        ctx.cfg.optimality_tol >= 0real,
    ensures
        ({
            let (m, tol) = (ctx.q.be.len(), ctx.cfg.optimality_tol);
            match leave_s(ctx, st, nu, iter) {
                None => forall|j: int| 0 <= j < st.ws.len() ==> #[trigger] nu[m + j] >= -tol,
                Some(k) => {
                    &&& 0 <= k < st.ws.len()
                    &&& nu[m + k] < -tol
                    &&& forall|j: int|
                        0 <= j < st.ws.len() && #[trigger] nu[m + j] < -tol ==> if iter < 2 * (
                        ctx.q.bi.len() + ctx.q.n()) + 10 {
                            nu[m + k] <= nu[m + j]
                        } else {
                            st.ws[k] <= st.ws[j]
                        }
                },
            }
        }),
{
    let (m, tol) = (ctx.q.be.len(), ctx.cfg.optimality_tol);
    law_bland(nu, m, st.ws, ctx.cfg, st.ws.len());
    law_steepest(nu, m, ctx.cfg, st.ws.len());
    assert forall|j: int| 0 <= j < st.ws.len() implies negative_s(nu, m, j, ctx.cfg) == (
    #[trigger] nu[m + j] < -tol) by {}
}

} // verus!
