//! Laws of the active-set method that hold in any arithmetic: what the working
//! set, the multipliers and the iteration count look like at every exit.

use vstd::prelude::*;

use crate::active_set::{
    active_row_s, active_set_s, advance_s, as_run_s, as_step_s, bland_s, context_s, drop_s,
    eq_factor_s, finish_s, leave_s, lemma_leave_range, lemma_step_length_range, lemma_ws_push,
    lemma_ws_remove, negative_s, scatter_s, seeded_s, step_length_s, AsCtx, AsNext, AsOut, AsState,
};
use crate::active_start::{
    active_at_s, feasible_s, fits_s, prepare_s, push_into_s, push_run_s, push_step_s, reproject_s,
    start_s, still_tight_s, x0_fits_s,
};
use crate::dense::{mvec_s, transpose_s, vzeros_s, Mat};
use crate::factor::{dot_rows_s, lemma_remove_wf, project_s, solve_schur_s, try_push_s, Fac};
use crate::kernels::{lu_vec_s, DenseKernels};
use crate::qp::{Qp, QpConfig, QpStatus, Warm};
use crate::scalar::Arith;
use crate::triangular::{chol_solve_s, forward_s, lemma_backward_len, lemma_forward_len};

verus! {

/// The factor holds exactly the active rows, and the working set is made of
/// distinct inequality numbers.
pub open spec fn consistent<T>(q: Qp<T>, st: AsState<T>) -> bool {
    &&& st.wf(q)
    &&& forall|k: int|
        0 <= k < st.fac.len() ==> #[trigger] st.fac.rows[k] == active_row_s(q, st.ws, k)
}

/// Distinct inequality numbers.
pub open spec fn is_working_set<T>(q: Qp<T>, ws: Seq<usize>) -> bool {
    &&& ws.no_duplicates()
    &&& forall|k: int| 0 <= k < ws.len() ==> #[trigger] ws[k] < q.bi.len()
}

/// Inequality `i` is outside `ws`.
pub open spec fn outside(ws: Seq<usize>, i: int) -> bool {
    !ws.contains(i as usize)
}

/// What every exit of the iterations has in common.
pub open spec fn exit_ok<T: Arith>(q: Qp<T>, cfg: QpConfig<T>, out: AsOut<T>) -> bool {
    &&& out.sol.iterations <= cfg.max_iters
    &&& out.sol.x.len() == q.n()
    &&& out.sol.lambda_eq.len() == q.be.len()
    &&& out.sol.lambda_iq.len() == q.bi.len()
    &&& out.sol.objective == crate::qp::objective_s(q.h, q.c, out.sol.x)
    &&& out.warm.x == Some(out.sol.x)
    &&& is_working_set(q, out.warm.working_set)
    &&& forall|i: int|
        0 <= i < q.bi.len() && #[trigger] outside(out.warm.working_set, i)
            ==> out.sol.lambda_iq[i] == T::zero_s()
    &&& out.sol.status != QpStatus::Infeasible
}

/// The solve reaches its first iteration: the Hessian factors, the first point
/// is feasible, and the equalities are independent.
pub open spec fn iterates<T: DenseKernels>(
    q: Qp<T>,
    x0: Option<Seq<T>>,
    cfg: QpConfig<T>,
    prior: Option<Warm<T>>,
) -> bool {
    match prepare_s(q.h) {
        None => false,
        Some(pre) => feasible_s(q, start_s(q, x0, cfg, prior).0, cfg) && eq_factor_s(
            q,
            pre.0.rows,
            q.be.len(),
        ) is Some,
    }
}

/// Appending keeps the shape.
pub proof fn lemma_push_wf<T: Arith>(
    f: Fac<T>,
    row: Seq<T>,
    chol: Seq<Seq<T>>,
    g: Fac<T>,
)
    requires
        f.wf(chol.len()),
        row.len() == chol.len(),
        try_push_s(f, row, chol) == Some(g),
    ensures
        g.wf(chol.len()),
        g.rows == f.rows.push(row),
{
    let y = chol_solve_s(chol, row);
    lemma_backward_len(chol, forward_s(chol, row), 0);
    lemma_forward_len(f.l, dot_rows_s(f, y), f.len());
}

/// A row joins the working set.
pub proof fn lemma_join<T: Arith>(
    q: Qp<T>,
    st: AsState<T>,
    b: usize,
    chol: Seq<Seq<T>>,
    g: Fac<T>,
)
    requires
        q.wf(),
        consistent(q, st),
        chol.len() == q.n(),
        b < q.bi.len(),
        !st.ws.contains(b),
        try_push_s(st.fac, q.ai.rows[b as int], chol) == Some(g),
    ensures
        consistent(q, AsState { x: st.x, fac: g, ws: st.ws.push(b) }),
{
    lemma_push_wf(st.fac, q.ai.rows[b as int], chol, g);
    lemma_ws_push(st.ws, b);
    let ws = st.ws.push(b);
    assert forall|k: int| 0 <= k < g.len() implies #[trigger] g.rows[k] == active_row_s(
        q,
        ws,
        k,
    ) by {
        if k < st.fac.len() {
            assert(st.fac.rows[k] == active_row_s(q, st.ws, k));
        }
    }
}

/// A row leaves the working set.
pub proof fn lemma_drop<T: Arith>(q: Qp<T>, st: AsState<T>, k: int)
    requires
        consistent(q, st),
        0 <= k < st.ws.len(),
    ensures
        consistent(q, drop_s(q, st, k)),
{
    let d = drop_s(q, st, k);
    let m = q.be.len();
    lemma_remove_wf(st.fac, m + k, q.n());
    lemma_ws_remove(st.ws, k);
    assert forall|i: int| 0 <= i < d.ws.len() implies #[trigger] d.ws[i] < q.bi.len() by {
        let j = if i < k {
            i
        } else {
            i + 1
        };
        assert(st.ws[j] < q.bi.len());
    }
    assert forall|i: int| 0 <= i < d.fac.len() implies #[trigger] d.fac.rows[i] == active_row_s(
        q,
        d.ws,
        i,
    ) by {
        let j = if i < m + k {
            i
        } else {
            i + 1
        };
        assert(st.fac.rows[j] == active_row_s(q, st.ws, j));
    }
}

/// Only the point moves.
pub proof fn lemma_moved<T: Arith>(q: Qp<T>, st: AsState<T>, x: Seq<T>)
    requires
        consistent(q, st),
        x.len() == st.x.len(),
    ensures
        consistent(q, AsState { x, fac: st.fac, ws: st.ws }),
{
    let m = AsState { x, fac: st.fac, ws: st.ws };
    assert forall|k: int| 0 <= k < m.fac.len() implies #[trigger] m.fac.rows[k] == active_row_s(
        q,
        m.ws,
        k,
    ) by {
        assert(st.fac.rows[k] == active_row_s(q, st.ws, k));
    }
}

/// Entries outside the working set keep their base value.
pub proof fn lemma_scatter_outside<T>(
    base: Seq<T>,
    ws: Seq<usize>,
    vals: Seq<T>,
    off: nat,
    n: nat,
)
    requires
        n <= ws.len(),
        forall|k: int| 0 <= k < ws.len() ==> #[trigger] ws[k] < base.len(),
    ensures
        scatter_s(base, ws, vals, off, n).len() == base.len(),
        forall|i: int|
            0 <= i < base.len() && i <= usize::MAX && outside(ws, i) ==> #[trigger] scatter_s(
                base,
                ws,
                vals,
                off,
                n,
            )[i] == base[i],
    decreases n,
{
    if n > 0 {
        lemma_scatter_outside(base, ws, vals, off, (n - 1) as nat);
        assert forall|i: int| 0 <= i < base.len() && i <= usize::MAX && outside(ws, i) implies
            #[trigger] scatter_s(base, ws, vals, off, n)[i] == base[i] by {
            assert(ws.contains(ws[n - 1]));
        }
    }
}

proof fn lemma_finish<T: DenseKernels>(
    ctx: AsCtx<T>,
    st: AsState<T>,
    le: Seq<T>,
    li: Seq<T>,
    iter: usize,
)
    requires
        ctx.q.wf(),
        consistent(ctx.q, st),
        ctx.q.bi.len() <= usize::MAX,
        le.len() == ctx.q.be.len(),
        li.len() == ctx.q.bi.len(),
        iter <= ctx.cfg.max_iters,
        forall|i: int|
            0 <= i < ctx.q.bi.len() && #[trigger] outside(st.ws, i) ==> li[i] == T::zero_s(),
    ensures
        exit_ok(ctx.q, ctx.cfg, finish_s(ctx, st, le, li, iter)),
{
    let q = ctx.q;
    if ctx.ridged {
        match lu_vec_s(crate::active_set::kkt_s(q, st.ws), crate::active_set::kkt_rhs_s(q, st.ws)) {
            None => {},
            Some(z) => {
                lemma_scatter_outside(li, st.ws, z, q.n() + q.be.len(), st.ws.len());
            },
        }
    }
}

proof fn lemma_advance<T: Arith>(ctx: AsCtx<T>, st: AsState<T>, p: Seq<T>, iter: usize)
    requires
        ctx.wf(),
        consistent(ctx.q, st),
        ctx.q.bi.len() <= usize::MAX,
        iter <= ctx.cfg.max_iters,
    ensures
        match advance_s(ctx, st, p, iter) {
            AsNext::Go(next) => consistent(ctx.q, next),
            AsNext::Stop(out) => exit_ok(ctx.q, ctx.cfg, out) && out.sol.status
                == QpStatus::NumericalFailure,
        },
{
    let q = ctx.q;
    let step = step_length_s(q, st.x, p, st.ws, ctx.cfg, q.bi.len());
    lemma_step_length_range(q, st.x, p, st.ws, ctx.cfg, q.bi.len());
    let x = crate::dense::vadd_s(st.x, crate::dense::vscale_s(step.0, p));
    let moved = AsState { x, fac: st.fac, ws: st.ws };
    lemma_moved(q, st, x);
    match step.1 {
        None => {},
        Some(b) => match try_push_s(st.fac, q.ai.rows[b as int], ctx.chol) {
            Some(f) => {
                lemma_join(q, moved, b, ctx.chol, f);
            },
            None => {
                if st.fac.len() > 0 && st.ws.len() > 0 {
                    lemma_drop(q, moved, st.ws.len() - 1);
                }
            },
        },
    }
}

/// One iteration keeps the state consistent, or ends well formed.
pub proof fn law_iteration_consistent<T: DenseKernels>(ctx: AsCtx<T>, st: AsState<T>, iter: usize)
    requires
        ctx.wf(),
        consistent(ctx.q, st),
        ctx.q.bi.len() <= usize::MAX,
        iter <= ctx.cfg.max_iters,
    ensures
        match as_step_s(ctx, st, iter) {
            AsNext::Go(next) => consistent(ctx.q, next),
            AsNext::Stop(out) => exit_ok(ctx.q, ctx.cfg, out),
        },
{
    let q = ctx.q;
    let grad = crate::dense::vadd_s(mvec_s(ctx.h_it, st.x), q.c);
    let r = chol_solve_s(ctx.chol, crate::dense::vneg_s(grad));
    if st.fac.len() == 0 {
        lemma_finish(ctx, st, vzeros_s(q.be.len()), vzeros_s(q.bi.len()), iter);
        lemma_advance(ctx, st, r, iter);
    } else {
        let nu = solve_schur_s(st.fac, dot_rows_s(st.fac, r));
        let p = project_s(st.fac, r, nu);
        lemma_advance(ctx, st, p, iter);
        lemma_leave_range(ctx, st, nu, iter);
        let li = scatter_s(vzeros_s(q.bi.len()), st.ws, nu, q.be.len(), st.ws.len());
        lemma_scatter_outside(vzeros_s::<T>(q.bi.len()), st.ws, nu, q.be.len(), st.ws.len());
        lemma_finish(ctx, st, crate::dense::slice_s(nu, 0, q.be.len()), li, iter);
        match leave_s(ctx, st, nu, iter) {
            None => {},
            Some(k) => {
                lemma_drop(q, st, k);
            },
        }
    }
}

/// The iterations end well formed.
pub proof fn law_run_consistent<T: DenseKernels>(ctx: AsCtx<T>, st: AsState<T>, iter: usize)
    requires
        ctx.wf(),
        consistent(ctx.q, st),
        ctx.q.bi.len() <= usize::MAX,
        iter <= ctx.cfg.max_iters,
    ensures
        exit_ok(ctx.q, ctx.cfg, as_run_s(ctx, st, iter)),
    decreases ctx.cfg.max_iters - iter,
{
    if iter < ctx.cfg.max_iters {
        law_iteration_consistent(ctx, st, iter);
        match as_step_s(ctx, st, iter) {
            AsNext::Go(next) => {
                law_run_consistent(ctx, next, (iter + 1) as usize);
            },
            AsNext::Stop(out) => {},
        }
    }
}

/// The factor of the equalities holds the equalities.
pub proof fn lemma_eq_factor<T: Arith>(q: Qp<T>, chol: Seq<Seq<T>>, n: nat)
    requires
        q.wf(),
        chol.len() == q.n(),
        n <= q.be.len(),
    ensures
        eq_factor_s(q, chol, n) matches Some(f) ==> f.wf(q.n()) && f.len() == n && forall|k: int|
            0 <= k < n ==> #[trigger] f.rows[k] == q.ae.rows[k],
    decreases n,
{
    if n > 0 {
        lemma_eq_factor(q, chol, (n - 1) as nat);
        match eq_factor_s(q, chol, (n - 1) as nat) {
            Some(f) => match try_push_s(f, q.ae.rows[n - 1], chol) {
                Some(g) => {
                    lemma_push_wf(f, q.ae.rows[n - 1], chol, g);
                },
                None => {},
            },
            None => {},
        }
    }
}

/// Seeding ends consistent.
pub proof fn lemma_seeded<T: Arith>(
    q: Qp<T>,
    chol: Seq<Seq<T>>,
    f: Fac<T>,
    seed: Seq<usize>,
    n: nat,
    x: Seq<T>,
)
    requires
        q.wf(),
        chol.len() == q.n(),
        eq_factor_s(q, chol, q.be.len()) == Some(f),
        x.len() == q.n(),
        n <= seed.len(),
        forall|k: int| 0 <= k < seed.len() ==> #[trigger] seed[k] < q.bi.len(),
    ensures
        ({
            let s = seeded_s(q, chol, f, seed, n);
            consistent(q, AsState { x, fac: s.0, ws: s.1 })
        }),
    decreases n,
{
    lemma_eq_factor(q, chol, q.be.len());
    if n > 0 {
        lemma_seeded(q, chol, f, seed, (n - 1) as nat, x);
        let head = seeded_s(q, chol, f, seed, (n - 1) as nat);
        let i = seed[n - 1];
        if !head.1.contains(i) {
            match try_push_s(head.0, q.ai.rows[i as int], chol) {
                Some(g) => {
                    lemma_join(q, AsState { x, fac: head.0, ws: head.1 }, i, chol, g);
                },
                None => {},
            }
        }
    }
}

proof fn lemma_still_tight<T: Arith>(
    q: Qp<T>,
    x: Seq<T>,
    ws: Seq<usize>,
    n: nat,
    cfg: QpConfig<T>,
)
    requires
        n <= ws.len(),
        forall|k: int| 0 <= k < ws.len() ==> #[trigger] ws[k] < q.bi.len(),
    ensures
        forall|k: int|
            0 <= k < still_tight_s(q, x, ws, n, cfg).len() ==> #[trigger] still_tight_s(
                q,
                x,
                ws,
                n,
                cfg,
            )[k] < q.bi.len(),
    decreases n,
{
    if n > 0 {
        lemma_still_tight(q, x, ws, (n - 1) as nat, cfg);
        let head = still_tight_s(q, x, ws, (n - 1) as nat, cfg);
        let all = still_tight_s(q, x, ws, n, cfg);
        assert forall|k: int| 0 <= k < all.len() implies #[trigger] all[k] < q.bi.len() by {
            if k < head.len() {
                assert(head[k] < q.bi.len());
            }
        }
    }
}

/// The rows that are active at a point are inequality numbers.
pub proof fn lemma_active_at<T: Arith>(q: Qp<T>, x: Seq<T>, n: nat, cfg: QpConfig<T>)
    requires
        n <= q.bi.len() <= usize::MAX,
    ensures
        forall|k: int|
            0 <= k < active_at_s(q, x, n, cfg).len() ==> #[trigger] active_at_s(q, x, n, cfg)[k]
                < q.bi.len(),
    decreases n,
{
    if n > 0 {
        lemma_active_at(q, x, (n - 1) as nat, cfg);
        let head = active_at_s(q, x, (n - 1) as nat, cfg);
        let all = active_at_s(q, x, n, cfg);
        assert forall|k: int| 0 <= k < all.len() implies #[trigger] all[k] < q.bi.len() by {
            if k < head.len() {
                assert(head[k] < q.bi.len());
            }
        }
    }
}

pub proof fn lemma_push_run_len<T: Arith>(
    x: Seq<T>,
    p: Mat<T>,
    ai: Mat<T>,
    bi: Seq<T>,
    cfg: QpConfig<T>,
    k: nat,
)
    ensures
        push_run_s(x, p, ai, bi, cfg, k).0.len() == x.len(),
    decreases k,
{
    if k > 0 {
        match push_step_s(x, p, ai, bi, cfg) {
            Ok(y) => {
                lemma_push_run_len(y, p, ai, bi, cfg, (k - 1) as nat);
            },
            Err(_) => {},
        }
    }
}

pub proof fn lemma_push_into_len<T: DenseKernels>(x: Seq<T>, q: Qp<T>, cfg: QpConfig<T>)
    ensures
        push_into_s(x, q, cfg).0.len() == x.len(),
{
    match crate::active_start::projector_s(q.ae) {
        None => {},
        Some(p) => {
            lemma_push_run_len(x, p, q.ai, q.bi, cfg, 200);
        },
    }
}

/// The first point has the length of the decision variable, and the seed rows
/// are inequality numbers.
pub proof fn lemma_start<T: DenseKernels>(
    q: Qp<T>,
    x0: Option<Seq<T>>,
    cfg: QpConfig<T>,
    prior: Option<Warm<T>>,
)
    requires
        q.wf(),
        q.bi.len() <= usize::MAX,
        x0_fits_s(q, x0, cfg, prior),
    ensures
        start_s(q, x0, cfg, prior).0.len() == q.n(),
        start_s(q, x0, cfg, prior).1 matches Some(rows) ==> forall|k: int|
            0 <= k < rows.len() ==> #[trigger] rows[k] < q.bi.len(),
{
    match prior {
        Some(w) => {
            if fits_s(q, w) {
                match reproject_s(q, w.x->0, cfg) {
                    Some(xw) => {
                        lemma_push_into_len(xw, q, cfg);
                        let m = push_into_s(xw, q, cfg).0;
                        lemma_still_tight(q, m, w.working_set, w.working_set.len(), cfg);
                    },
                    None => {},
                }
            }
        },
        None => {},
    }
    if q.be.len() > 0 {
        match lu_vec_s(crate::dense::mmul_s(q.ae, transpose_s(q.ae)), q.be) {
            Some(y) => {
                lemma_push_into_len(mvec_s(transpose_s(q.ae), y), q, cfg);
            },
            None => {},
        }
    }
}

/// Whatever the arithmetic: the active-set method reports at most the allowed
/// iterations, gives zero multipliers outside its final working set, and stores
/// the point it returns, however it ended, together with a working set of
/// distinct inequality numbers. A solve that failed before its first iteration
/// reports none, and has no working set.
///
/// The factor of the Hessian is assumed to have the Hessian's shape, as
/// [`crate::kernels::Backend::cholesky`] promises.
pub proof fn law_active_set_exit<T: DenseKernels>(
    q: Qp<T>,
    x0: Option<Seq<T>>,
    cfg: QpConfig<T>,
    prior: Option<Warm<T>>,
)
    requires
        q.wf(),
        q.bi.len() <= usize::MAX,
        x0_fits_s(q, x0, cfg, prior),
        prepare_s(q.h) matches Some(pre) ==> pre.0.shaped(q.n(), q.n()),
    ensures
        ({
            let out = active_set_s(q, x0, cfg, prior);
            if iterates(q, x0, cfg, prior) {
                exit_ok(q, cfg, out)
            } else {
                &&& out.sol.status == QpStatus::NumericalFailure || out.sol.status
                    == QpStatus::Infeasible
                &&& out.sol.iterations == 0
                &&& out.sol.x.len() == q.n()
                &&& out.sol.lambda_eq == vzeros_s::<T>(q.be.len())
                &&& out.sol.lambda_iq == vzeros_s::<T>(q.bi.len())
                &&& out.warm == (Warm { x: Some(out.sol.x), working_set: Seq::empty() })
            }
        }),
{
    match prepare_s(q.h) {
        None => {},
        Some(pre) => {
            let ctx = context_s(q, cfg, pre.0, pre.1);
            let (x, seed) = start_s(q, x0, cfg, prior);
            lemma_start(q, x0, cfg, prior);
            lemma_active_at(q, x, q.bi.len(), cfg);
            match eq_factor_s(q, ctx.chol, q.be.len()) {
                None => {},
                Some(f) => {
                    let rows = match seed {
                        Some(rows) => rows,
                        None => active_at_s(q, x, q.bi.len(), cfg),
                    };
                    lemma_seeded(q, ctx.chol, f, rows, rows.len(), x);
                    let (fac, ws) = seeded_s(q, ctx.chol, f, rows, rows.len());
                    law_run_consistent(ctx, AsState { x, fac, ws }, 0);
                },
            }
        },
    }
}

/// An empty workspace is as good as none: the next solve starts cold.
pub proof fn law_cleared_is_cold<T: DenseKernels>(
    q: Qp<T>,
    x0: Option<Seq<T>>,
    cfg: QpConfig<T>,
)
    ensures
        active_set_s(q, x0, cfg, Some(Warm::cold())) == active_set_s(q, x0, cfg, None),
{
    assert(start_s(q, x0, cfg, Some(Warm::cold())) == start_s(q, x0, cfg, None));
}

/// Bland's rule takes the lowest constraint number among those with a negative
/// multiplier, and something wherever there is one.
pub proof fn law_bland<T: Arith>(
    nu: Seq<T>,
    m_eq: nat,
    ws: Seq<usize>,
    cfg: QpConfig<T>,
    n: nat,
)
    ensures
        match bland_s(nu, m_eq, ws, cfg, n) {
            None => forall|j: int| 0 <= j < n ==> !#[trigger] negative_s(nu, m_eq, j, cfg),
            Some(k) => {
                &&& 0 <= k < n
                &&& negative_s(nu, m_eq, k, cfg)
                &&& forall|j: int|
                    0 <= j < n && #[trigger] negative_s(nu, m_eq, j, cfg) ==> ws[k] <= ws[j]
            },
        },
    decreases n,
{
    if n > 0 {
        law_bland(nu, m_eq, ws, cfg, (n - 1) as nat);
    }
}

} // verus!
