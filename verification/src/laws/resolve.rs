//! Solving the same problem again from a stored optimum takes no iteration.

use vstd::prelude::*;

use crate::active_set::{
    active_row_s, active_set_s, advance_s, as_run_s, as_step_s, context_s, eq_factor_s, finish_s,
    kkt_rhs_s, kkt_s, leave_s, lemma_leave_range, lemma_step_length_range, polish_ok_s, scatter_s,
    seeded_s, step_length_s, AsCtx, AsNext, AsOut, AsState,
};
use crate::active_start::{
    active_at_s, eq_off_s, feasible_s, fits_s, iq_feasible_s, iq_off_s, prepare_s, projector_s,
    push_into_s, push_step_s, start_s, still_tight_s, tight_s, warm_start_s, worst_s, x0_fits_s,
};
use crate::dense::{
    identity_s, mmul_s, mvec_s, norm_sq_s, slice_s, transpose_s, vadd_s, vneg_s, vzeros_s, Mat,
};
use crate::exact::{
    lemma_adjoint, lemma_dot_comm, lemma_dot_zero, lemma_mmul_mvec, lemma_norm_sq_zero,
};
use crate::factor::{dot_rows_s, project_s, solve_schur_s, try_push_s, Fac};
use crate::kernels::lu_vec_s;
use crate::laws::active_set::{
    good, law_active_set, law_iteration, law_polish, law_prepared, law_steepest, polished, sound,
};
use crate::laws::factor::{active_s, exact_factor, factors, law_empty_exact};
use crate::laws::null_space::law_regular_solvable;
use crate::laws::rebuild::{
    law_rows_independent, lemma_push_prefix, lemma_push_strong, lemma_remove_strong, strong, take_s,
};
use crate::laws::tight::{
    kept, lemma_seed_kept, lemma_start_rows, lemma_step_kept, reached, slackness_s,
};
use crate::laws::working_set::{
    consistent, is_working_set, law_active_set_exit, law_bland, lemma_active_at,
    lemma_scatter_outside, lemma_seeded, lemma_start, outside,
};
use crate::qp::{row_dot_s, solve_qp_s, Qp, QpArgs, QpConfig, QpSolver, QpStatus, Warm};
use crate::scalar::{roots_exist, Arith};
use crate::triangular::chol_solve_s;

verus! {

/// The state is good, its pivots are strong, and its working set is reached.
pub open spec fn ready(ctx: AsCtx<real>, st: AsState<real>) -> bool {
    &&& good(ctx, st)
    &&& strong(st.fac)
    &&& kept(ctx, st)
}

proof fn lemma_advance_strong(
    ctx: AsCtx<real>,
    st: AsState<real>,
    p: Seq<real>,
    iter: usize,
)
    requires
        sound(ctx),
        roots_exist(),
        ready(ctx, st),
    ensures
        advance_s(ctx, st, p, iter) matches AsNext::Go(next) ==> strong(next.fac),
{
    let q = ctx.q;
    let step = step_length_s(q, st.x, p, st.ws, ctx.cfg, q.bi.len());
    lemma_step_length_range(q, st.x, p, st.ws, ctx.cfg, q.bi.len());
    match step.1 {
        None => {},
        Some(b) => match try_push_s(st.fac, q.ai.rows[b as int], ctx.chol) {
            Some(f) => {
                lemma_push_strong(st.fac, q.ai.rows[b as int], ctx.chol, ctx.h_it, f);
            },
            None => {
                if st.fac.len() > 0 && st.ws.len() > 0 {
                    lemma_remove_strong(st.fac, q.be.len() + st.ws.len() - 1, ctx.h_it);
                }
            },
        },
    }
}

proof fn lemma_step_ready(ctx: AsCtx<real>, st: AsState<real>, iter: usize)
    requires
        sound(ctx),
        roots_exist(),
        ready(ctx, st),
    ensures
        as_step_s(ctx, st, iter) matches AsNext::Go(next) ==> ready(ctx, next),
{
    let q = ctx.q;
    law_iteration(ctx, st, iter);
    lemma_step_kept(ctx, st, iter);
    let grad = vadd_s(mvec_s(ctx.h_it, st.x), q.c);
    let r = chol_solve_s(ctx.chol, vneg_s(grad));
    let nu = solve_schur_s(st.fac, dot_rows_s(st.fac, r));
    let p = project_s(st.fac, r, nu);
    lemma_advance_strong(ctx, st, p, iter);
    lemma_advance_strong(ctx, st, r, iter);
    lemma_leave_range(ctx, st, nu, iter);
    match leave_s(ctx, st, nu, iter) {
        None => {},
        Some(k) => {
            lemma_remove_strong(st.fac, q.be.len() + k, ctx.h_it);
        },
    }
}

/// The state in which an optimal run stopped, and when.
proof fn lemma_last(ctx: AsCtx<real>, st: AsState<real>, iter: usize) -> (r: (AsState<real>, usize))
    requires
        sound(ctx),
        roots_exist(),
        ready(ctx, st),
        iter <= ctx.cfg.max_iters,
        as_run_s(ctx, st, iter).sol.status == QpStatus::Optimal,
    ensures
        ready(ctx, r.0),
        as_step_s(ctx, r.0, r.1) == AsNext::Stop(as_run_s(ctx, st, iter)),
    decreases ctx.cfg.max_iters - iter,
{
    lemma_step_ready(ctx, st, iter);
    match as_step_s(ctx, st, iter) {
        AsNext::Go(next) => lemma_last(ctx, next, (iter + 1) as usize),
        AsNext::Stop(out) => (st, iter),
    }
}

proof fn lemma_eq_prefix(q: Qp<real>, st: AsState<real>, chol: Seq<Seq<real>>, h: Mat<real>, n: nat)
    requires
        consistent(q, st),
        exact_factor(st.fac, h),
        strong(st.fac),
        factors(chol, h),
        n <= q.be.len(),
        roots_exist(),
    ensures
        eq_factor_s(q, chol, n) == Some(take_s(st.fac, n)),
    decreases n,
{
    if n == 0 {
        assert(take_s(st.fac, 0) =~= Fac::empty());
    } else {
        lemma_eq_prefix(q, st, chol, h, (n - 1) as nat);
        assert(st.fac.rows[n - 1] == active_row_s(q, st.ws, n - 1));
        lemma_push_prefix(st.fac, (n - 1) as nat, chol, h);
    }
}

proof fn lemma_seed_prefix(
    q: Qp<real>,
    st: AsState<real>,
    chol: Seq<Seq<real>>,
    h: Mat<real>,
    n: nat,
)
    requires
        consistent(q, st),
        exact_factor(st.fac, h),
        strong(st.fac),
        factors(chol, h),
        n <= st.ws.len(),
        roots_exist(),
    ensures
        seeded_s(q, chol, take_s(st.fac, q.be.len()), st.ws, n) == (
            take_s(st.fac, q.be.len() + n),
            st.ws.take(n as int),
        ),
    decreases n,
{
    let me = q.be.len();
    if n == 0 {
        assert(st.ws.take(0) =~= Seq::empty());
    } else {
        lemma_seed_prefix(q, st, chol, h, (n - 1) as nat);
        let head = st.ws.take(n - 1);
        let i = st.ws[n - 1];
        if head.contains(i) {
            let j = choose|j: int| 0 <= j < head.len() && head[j] == i;
            assert(st.ws[j] == st.ws[n - 1]);
        }
        let k = me + n - 1;
        assert(st.fac.rows[k] == active_row_s(q, st.ws, k));
        lemma_push_prefix(st.fac, k as nat, chol, h);
        assert(head.push(i) =~= st.ws.take(n as int));
    }
}

proof fn lemma_all_tight(
    q: Qp<real>,
    x: Seq<real>,
    ws: Seq<usize>,
    n: nat,
    cfg: QpConfig<real>,
)
    requires
        n <= ws.len(),
        forall|k: int| 0 <= k < ws.len() ==> tight_s(q, x, #[trigger] ws[k] as int, cfg),
    ensures
        still_tight_s(q, x, ws, n, cfg) == ws.take(n as int),
    decreases n,
{
    if n == 0 {
        assert(ws.take(0) =~= Seq::empty());
    } else {
        lemma_all_tight(q, x, ws, (n - 1) as nat, cfg);
        assert(tight_s(q, x, ws[n - 1] as int, cfg));
        assert(ws.take(n - 1).push(ws[n - 1]) =~= ws.take(n as int));
    }
}

proof fn lemma_worst_upto(vals: Seq<real>, bi: Seq<real>, n: nat, t: real)
    requires
        forall|i: int| 0 <= i < n ==> #[trigger] vals[i] - bi[i] <= t,
    ensures
        worst_s(vals, bi, n) matches Some(w) ==> w.0 <= t,
    decreases n,
{
    if n > 0 {
        lemma_worst_upto(vals, bi, (n - 1) as nat, t);
        assert(vals[n - 1] - bi[n - 1] <= t);
    }
}

proof fn lemma_seed_strong(
    q: Qp<real>,
    chol: Seq<Seq<real>>,
    h: Mat<real>,
    f: Fac<real>,
    seed: Seq<usize>,
    n: nat,
)
    requires
        q.wf(),
        chol.len() == q.n(),
        factors(chol, h),
        roots_exist(),
        exact_factor(f, h),
        strong(f),
        n <= seed.len(),
        forall|k: int| 0 <= k < seed.len() ==> #[trigger] seed[k] < q.bi.len(),
    ensures
        exact_factor(seeded_s(q, chol, f, seed, n).0, h),
        strong(seeded_s(q, chol, f, seed, n).0),
    decreases n,
{
    if n > 0 {
        lemma_seed_strong(q, chol, h, f, seed, (n - 1) as nat);
        let head = seeded_s(q, chol, f, seed, (n - 1) as nat);
        let i = seed[n - 1];
        if !head.1.contains(i) {
            match try_push_s(head.0, q.ai.rows[i as int], chol) {
                Some(g) => {
                    lemma_push_strong(head.0, q.ai.rows[i as int], chol, h, g);
                },
                None => {},
            }
        }
    }
}

proof fn lemma_eq_strong(q: Qp<real>, chol: Seq<Seq<real>>, h: Mat<real>, n: nat)
    requires
        q.wf(),
        chol.len() == q.n(),
        factors(chol, h),
        n <= q.be.len(),
        roots_exist(),
    ensures
        eq_factor_s(q, chol, n) matches Some(f) ==> exact_factor(f, h) && strong(f),
    decreases n,
{
    if n == 0 {
        law_empty_exact(h);
    } else {
        lemma_eq_strong(q, chol, h, (n - 1) as nat);
        match eq_factor_s(q, chol, (n - 1) as nat) {
            Some(f) => match try_push_s(f, q.ae.rows[n - 1], chol) {
                Some(g) => {
                    lemma_push_strong(f, q.ae.rows[n - 1], chol, h, g);
                },
                None => {},
            },
            None => {},
        }
    }
}

/// A stored optimum that is feasible within the tolerance is where the next
/// solve of the same problem starts, with the same working set.
proof fn lemma_warm_from(
    q: Qp<real>,
    cfg: QpConfig<real>,
    x: Seq<real>,
    ws: Seq<usize>,
)
    requires
        q.wf(),
        x.len() == q.n(),
        cfg.feasibility_tol >= 0real,
        is_working_set(q, ws),
        feasible_s(q, x, cfg),
        q.bi.len() > 0 ==> projector_s(q.ae) is Some,
        forall|k: int|
            0 <= k < ws.len() ==> row_dot_s(q.ai, #[trigger] ws[k] as int, x)
                >= q.bi[ws[k] as int] - slackness_s(cfg),
    ensures
        warm_start_s(q, cfg, Some(Warm { x: Some(x), working_set: ws })) == Some((x, ws)),
{
    let w = Warm { x: Some(x), working_set: ws };
    assert(fits_s(q, w));
    assert(push_into_s(x, q, cfg) == (x, true)) by {
        if q.bi.len() > 0 {
            let vals = mvec_s(q.ai, x);
            assert forall|i: int| 0 <= i < q.bi.len() implies #[trigger] vals[i] - q.bi[i]
                <= cfg.feasibility_tol by {
                assert(!iq_off_s(q, x, i, cfg));
            }
            lemma_worst_upto(vals, q.bi, q.bi.len(), cfg.feasibility_tol);
            assert(push_step_s(x, projector_s(q.ae)->0, q.ai, q.bi, cfg) == Err::<
                Seq<real>,
                bool,
            >(true));
        }
    }
    assert forall|k: int| 0 <= k < ws.len() implies tight_s(
        q,
        x,
        #[trigger] ws[k] as int,
        cfg,
    ) by {
        assert(!iq_off_s(q, x, ws[k] as int, cfg));
        assert(row_dot_s(q.ai, ws[k] as int, x) >= q.bi[ws[k] as int] - slackness_s(cfg));
    }
    lemma_all_tight(q, x, ws, ws.len(), cfg);
    assert(ws.take(ws.len() as int) =~= ws);
}

/// The projector exists where the equalities gave an exact factor.
proof fn lemma_projector_exists(
    ae: Mat<real>,
    f: Fac<real>,
    chol: Seq<Seq<real>>,
    h: Mat<real>,
)
    requires
        exact_factor(f, h),
        factors(chol, h),
        ae == active_s(f, chol.len()),
        ae.wf(),
    ensures
        projector_s(ae) is Some,
{
    let (m, n) = (ae.nrows(), ae.ncols());
    let at = transpose_s(ae);
    let g = mmul_s(ae, at);
    assert forall|v: Seq<real>|
        v.len() == m && #[trigger] mvec_s(g, v) == vzeros_s::<real>(m) implies v == vzeros_s::<
        real,
    >(m) by {
        let u = mvec_s(at, v);
        lemma_mmul_mvec(ae, at, v);
        lemma_adjoint(ae, u, v);
        lemma_dot_zero(v, m);
        lemma_dot_comm(vzeros_s::<real>(m), v);
        assert(norm_sq_s(u) == 0real);
        assert forall|i: int| 0 <= i < n implies u[i] == 0real by {
            lemma_norm_sq_zero(u, n, i);
        }
        assert(u =~= vzeros_s::<real>(n));
        law_rows_independent(f, chol, h, v);
    }
    law_regular_solvable(g, identity_s::<real>(m));
}

/// An optimal answer that no polish replaced meets the equalities as its start
/// did.
proof fn lemma_on_equalities(
    q: Qp<real>,
    x0: Option<Seq<real>>,
    cfg: QpConfig<real>,
    prior: Option<Warm<real>>,
    pre: (Mat<real>, real),
)
    requires
        q.wf(),
        q.bi.len() <= usize::MAX,
        x0_fits_s(q, x0, cfg, prior),
        cfg.feasibility_tol >= 0real,
        cfg.optimality_tol >= 0real,
        prepare_s(q.h) == Some(pre),
        roots_exist(),
        active_set_s(q, x0, cfg, prior).sol.status == QpStatus::Optimal,
        pre.1 == 0real || unpolished(q, cfg, active_set_s(q, x0, cfg, prior)),
    ensures
        !eq_off_s(q, active_set_s(q, x0, cfg, prior).sol.x, cfg),
{
    law_active_set(q, x0, cfg, prior, pre);
    let start = start_s(q, x0, cfg, prior).0;
    assert(feasible_s(q, start, cfg));
    assert(mvec_s(q.ae, active_set_s(q, x0, cfg, prior).sol.x) == mvec_s(q.ae, start));
}

/// The state in which an optimal solve stopped, and when.
proof fn lemma_final_state(
    q: Qp<real>,
    x0: Option<Seq<real>>,
    cfg: QpConfig<real>,
    prior: Option<Warm<real>>,
    pre: (Mat<real>, real),
) -> (r: (AsState<real>, usize))
    requires
        q.wf(),
        q.bi.len() <= usize::MAX,
        x0_fits_s(q, x0, cfg, prior),
        cfg.feasibility_tol >= 0real,
        cfg.optimality_tol >= 0real,
        prepare_s(q.h) == Some(pre),
        roots_exist(),
        active_set_s(q, x0, cfg, prior).sol.status == QpStatus::Optimal,
    ensures
        sound(context_s(q, cfg, pre.0, pre.1)),
        ready(context_s(q, cfg, pre.0, pre.1), r.0),
        as_step_s(context_s(q, cfg, pre.0, pre.1), r.0, r.1) == AsNext::Stop(
            active_set_s(q, x0, cfg, prior),
        ),
        cfg.max_iters > 0,
{
    let ctx = context_s(q, cfg, pre.0, pre.1);
    let (x, seed) = start_s(q, x0, cfg, prior);
    law_prepared(q.h, pre);
    law_active_set_exit(q, x0, cfg, prior);
    lemma_start(q, x0, cfg, prior);
    lemma_active_at(q, x, q.bi.len(), cfg);
    let f = eq_factor_s(q, ctx.chol, q.be.len())->0;
    let rows = match seed {
        Some(rows) => rows,
        None => active_at_s(q, x, q.bi.len(), cfg),
    };
    lemma_start_rows(q, x0, cfg, prior, rows);
    lemma_eq_strong(q, ctx.chol, ctx.h_it, q.be.len());
    lemma_seeded(q, ctx.chol, f, rows, rows.len(), x);
    lemma_seed_strong(q, ctx.chol, ctx.h_it, f, rows, rows.len());
    lemma_seed_kept(ctx, f, x, rows, rows.len());
    let (fac, ws) = seeded_s(q, ctx.chol, f, rows, rows.len());
    assert(active_set_s(q, x0, cfg, prior) == as_run_s(ctx, AsState { x, fac, ws }, 0));
    lemma_last(ctx, AsState { x, fac, ws }, 0)
}

/// A solve that starts from a ready and feasible state takes it up as it is.
proof fn lemma_restart(
    q: Qp<real>,
    x0: Option<Seq<real>>,
    cfg: QpConfig<real>,
    pre: (Mat<real>, real),
    last: AsState<real>,
)
    requires
        q.wf(),
        prepare_s(q.h) == Some(pre),
        roots_exist(),
        sound(context_s(q, cfg, pre.0, pre.1)),
        ready(context_s(q, cfg, pre.0, pre.1), last),
        feasible_s(q, last.x, cfg),
    ensures
        active_set_s(
            q,
            x0,
            cfg,
            Some(Warm { x: Some(last.x), working_set: last.ws }),
        ) == as_run_s(context_s(q, cfg, pre.0, pre.1), last, 0),
{
    let ctx = context_s(q, cfg, pre.0, pre.1);
    assert forall|k: int| 0 <= k < last.ws.len() implies row_dot_s(
        q.ai,
        #[trigger] last.ws[k] as int,
        last.x,
    ) >= q.bi[last.ws[k] as int] - slackness_s(cfg) by {
        assert(reached(ctx, last, k));
    }
    lemma_eq_prefix(q, last, ctx.chol, ctx.h_it, q.be.len());
    let f = take_s(last.fac, q.be.len());
    assert(exact_factor(f, ctx.h_it)) by {
        lemma_eq_strong(q, ctx.chol, ctx.h_it, q.be.len());
    }
    assert(active_s(f, q.n()) == q.ae) by {
        assert forall|k: int| 0 <= k < q.be.len() implies f.rows[k] == q.ae.rows[k] by {
            assert(last.fac.rows[k] == active_row_s(q, last.ws, k));
        }
        assert(f.rows =~= q.ae.rows);
    }
    lemma_projector_exists(q.ae, f, ctx.chol, ctx.h_it);
    lemma_warm_from(q, cfg, last.x, last.ws);
    lemma_seed_prefix(q, last, ctx.chol, ctx.h_it, last.ws.len());
    assert(take_s(last.fac, last.fac.len()) =~= last.fac);
    assert(last.ws.take(last.ws.len() as int) =~= last.ws);
}

/// Solving the same problem again, from the state that an optimal solve stored,
/// takes no iteration and gives the same answer.
///
/// The stored optimum is to keep the inequalities within the tolerance, so that
/// it needs no correction, and to be the point at which the iterations had
/// stopped: the Hessian is well conditioned, or no polish replaced that point.
pub proof fn law_resolve(
    q: Qp<real>,
    x0: Option<Seq<real>>,
    cfg: QpConfig<real>,
    prior: Option<Warm<real>>,
    pre: (Mat<real>, real),
    again: Option<Seq<real>>,
)
    requires
        q.wf(),
        q.bi.len() <= usize::MAX,
        x0_fits_s(q, x0, cfg, prior),
        cfg.feasibility_tol >= 0real,
        cfg.optimality_tol >= 0real,
        prepare_s(q.h) == Some(pre),
        roots_exist(),
        active_set_s(q, x0, cfg, prior).sol.status == QpStatus::Optimal,
        iq_feasible_s(q, active_set_s(q, x0, cfg, prior).sol.x, cfg),
        pre.1 == 0real || unpolished(q, cfg, active_set_s(q, x0, cfg, prior)),
    ensures
        ({
            let (first, warm) = (
                active_set_s(q, x0, cfg, prior).sol,
                active_set_s(q, x0, cfg, prior).warm,
            );
            let second = active_set_s(q, again, cfg, Some(warm)).sol;
            &&& active_set_s(q, again, cfg, Some(warm)).warm == warm
            &&& second.status == QpStatus::Optimal
            &&& second.iterations == 0
            &&& second.x == first.x
            &&& second.lambda_eq == first.lambda_eq
            &&& second.lambda_iq == first.lambda_iq
            &&& second.objective == first.objective
        }),
{
    let ctx = context_s(q, cfg, pre.0, pre.1);
    let out = active_set_s(q, x0, cfg, prior);
    let (last, at) = lemma_final_state(q, x0, cfg, prior, pre);
    lemma_stop(ctx, last, at, out);
    lemma_on_equalities(q, x0, cfg, prior, pre);
    lemma_restart(q, again, cfg, pre, last);
}

/// The same through [`crate::qp::solve_qp_warm`]: a cold solve with an empty
/// workspace, then the same solve again with the workspace that it left.
pub proof fn law_warm_resolve(args: QpArgs<real>, cfg: QpConfig<real>, pre: (Mat<real>, real))
    requires
        args.wf(),
        args.x0 is None,
        args.problem(cfg).bi.len() <= usize::MAX,
        cfg.solver == QpSolver::ActiveSet,
        cfg.feasibility_tol >= 0real,
        cfg.optimality_tol >= 0real,
        prepare_s(args.h) == Some(pre),
        pre.1 == 0real,
        roots_exist(),
        solve_qp_s(args, cfg, Some(Warm::cold())).0.status == QpStatus::Optimal,
        iq_feasible_s(args.problem(cfg), solve_qp_s(args, cfg, Some(Warm::cold())).0.x, cfg),
    ensures
        ({
            let (cold, ws) = solve_qp_s(args, cfg, Some(Warm::cold()));
            let warm = solve_qp_s(args, cfg, ws).0;
            &&& ws is Some
            &&& solve_qp_s(args, cfg, ws).1 == ws
            &&& warm.status == QpStatus::Optimal
            &&& warm.iterations == 0
            &&& warm.x == cold.x
            &&& warm.lambda_eq == cold.lambda_eq
            &&& warm.lambda_iq == cold.lambda_iq
            &&& warm.objective == cold.objective
        }),
{
    reveal(solve_qp_s);
    law_resolve(args.problem(cfg), None, cfg, Some(Warm::cold()), pre, None);
}

/// The answer does not come from a polish.
pub open spec fn unpolished(q: Qp<real>, cfg: QpConfig<real>, out: AsOut<real>) -> bool {
    !polished(
        q,
        cfg,
        out.sol.x,
        out.sol.lambda_eq,
        out.sol.lambda_iq,
        out.warm.working_set,
    )
}

/// An optimal exit that no polish replaced is the point it stopped at.
proof fn lemma_kept_point(
    ctx: AsCtx<real>,
    st: AsState<real>,
    le: Seq<real>,
    li: Seq<real>,
    at: usize,
)
    requires
        sound(ctx),
        ready(ctx, st),
        li.len() == ctx.q.bi.len(),
        forall|i: int| 0 <= i < ctx.q.bi.len() && #[trigger] outside(st.ws, i) ==> li[i] == 0real,
        !ctx.ridged || unpolished(ctx.q, ctx.cfg, finish_s(ctx, st, le, li, at)),
    ensures
        finish_s(ctx, st, le, li, at).sol.x == st.x,
        finish_s(ctx, st, le, li, at).sol.lambda_eq == le,
        finish_s(ctx, st, le, li, at).sol.lambda_iq == li,
        finish_s(ctx, st, le, li, 0).sol.x == st.x,
        finish_s(ctx, st, le, li, 0).sol.lambda_eq == le,
        finish_s(ctx, st, le, li, 0).sol.lambda_iq == li,
{
    let q = ctx.q;
    match lu_vec_s(kkt_s(q, st.ws), kkt_rhs_s(q, st.ws)) {
        Some(z) => {
            if ctx.ridged && polish_ok_s(q, z, st.ws, ctx.cfg) {
                law_polish(q, li, st.ws, ctx.cfg, z);
            }
        },
        None => {},
    }
}

/// An unpolished optimal stop happens again, whatever the iteration count.
proof fn lemma_stop(ctx: AsCtx<real>, st: AsState<real>, at: usize, out: AsOut<real>)
    requires
        sound(ctx),
        !ctx.ridged || unpolished(ctx.q, ctx.cfg, out),
        ready(ctx, st),
        as_step_s(ctx, st, at) == AsNext::Stop(out),
        out.sol.status == QpStatus::Optimal,
    ensures
        out.sol.x == st.x,
        out.warm == (Warm { x: Some(st.x), working_set: st.ws }),
        as_step_s(ctx, st, 0) matches AsNext::Stop(o) && {
            &&& o.warm == out.warm
            &&& o.sol.x == out.sol.x
            &&& o.sol.objective == out.sol.objective
            &&& o.sol.lambda_eq == out.sol.lambda_eq
            &&& o.sol.lambda_iq == out.sol.lambda_iq
            &&& o.sol.status == QpStatus::Optimal
            &&& o.sol.iterations == 0
        },
{
    let q = ctx.q;
    let grad = vadd_s(mvec_s(ctx.h_it, st.x), q.c);
    let r = chol_solve_s(ctx.chol, vneg_s(grad));
    if st.fac.len() > 0 {
        let nu = solve_schur_s(st.fac, dot_rows_s(st.fac, r));
        law_bland(nu, q.be.len(), st.ws, ctx.cfg, st.ws.len());
        law_steepest(nu, q.be.len(), ctx.cfg, st.ws.len());
        assert(leave_s(ctx, st, nu, at) is None ==> leave_s(ctx, st, nu, 0) is None);
        let le = slice_s(nu, 0, q.be.len());
        let zero = vzeros_s::<real>(q.bi.len());
        let li = scatter_s(zero, st.ws, nu, q.be.len(), st.ws.len());
        lemma_scatter_outside(zero, st.ws, nu, q.be.len(), st.ws.len());
        assert forall|i: int| 0 <= i < q.bi.len() && #[trigger] outside(st.ws, i) implies li[i]
            == 0real by {
            assert(li[i] == zero[i]);
        }
        if out == finish_s(ctx, st, le, li, at) {
            lemma_kept_point(ctx, st, le, li, at);
        }
    } else {
        let (le, li) = (vzeros_s::<real>(q.be.len()), vzeros_s::<real>(q.bi.len()));
        if out == finish_s(ctx, st, le, li, at) {
            lemma_kept_point(ctx, st, le, li, at);
        }
    }
}

} // verus!
