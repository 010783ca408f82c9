//! The rows of the active set's working set are tight: whatever joins it is
//! reached, and no step leaves it behind.

use vstd::prelude::*;

use crate::active_set::{
    active_row_s, advance_s, as_step_s, drop_s, leave_s, lemma_leave_range, lemma_step_length_range,
    seeded_s, step_length_s, AsCtx, AsNext, AsState,
};
use crate::active_start::{active_at_s, near_s, start_s, still_tight_s, tight_s, warm_start_s};
use crate::dense::{mvec_s, norm_s, vadd_s, vneg_s, vscale_s, vzeros_s};
use crate::exact::{distrib, lemma_dot_add, lemma_dot_scale};
use crate::factor::{dot_rows_s, project_s, solve_schur_s, try_push_s, Fac};
use crate::laws::active_set::{good, sound};
use crate::laws::factor::{law_step_exact, lemma_lit_pos};
use crate::laws::rotation::lemma_over;
use crate::qp::{row_dot_s, Qp, QpConfig, Warm};
use crate::scalar::{lit_s, Arith};
use crate::triangular::chol_solve_s;

verus! {

/// How far below its bound a row of the working set may be.
pub open spec fn slackness_s(cfg: QpConfig<real>) -> real {
    cfg.feasibility_tol.max_s(lit_s::<real>(1, -12))
}

/// Row `k` of the working set has not been left behind.
pub open spec fn reached(ctx: AsCtx<real>, st: AsState<real>, k: int) -> bool {
    row_dot_s(ctx.q.ai, st.ws[k] as int, st.x) >= ctx.q.bi[st.ws[k] as int] - slackness_s(ctx.cfg)
}

/// No row of the working set has been left behind.
pub open spec fn kept(ctx: AsCtx<real>, st: AsState<real>) -> bool {
    forall|k: int| 0 <= k < st.ws.len() ==> #[trigger] reached(ctx, st, k)
}

/// What a blocking row reaches.
pub proof fn lemma_blocked(
    q: Qp<real>,
    x: Seq<real>,
    p: Seq<real>,
    ws: Seq<usize>,
    cfg: QpConfig<real>,
    n: nat,
)
    requires
        cfg.feasibility_tol >= 0real,
        n <= usize::MAX,
    ensures
        step_length_s(q, x, p, ws, cfg, n) matches (a, Some(b)) ==> row_dot_s(q.ai, b as int, x) + a
            * row_dot_s(q.ai, b as int, p) >= q.bi[b as int],
    decreases n,
{
    if n > 0 {
        lemma_blocked(q, x, p, ws, cfg, (n - 1) as nat);
        let i = n - 1;
        let (room, rate) = (q.bi[i] - row_dot_s(q.ai, i, x), row_dot_s(q.ai, i, p));
        if cfg.feasibility_tol < rate {
            let u = room / rate;
            lemma_over(room, rate);
            distrib(rate, u, 0real);
            let v = u.max_s(0real);
            assert(v * rate >= room) by (nonlinear_arith)
                requires
                    u * rate == room,
                    v >= u,
                    rate > 0real,
            ;
        }
    }
}

/// The rows of the working set stay reached along a direction that does not
/// leave them.
pub proof fn lemma_still_reached(ctx: AsCtx<real>, st: AsState<real>, p: Seq<real>, a: real)
    requires
        sound(ctx),
        good(ctx, st),
        kept(ctx, st),
        p.len() == ctx.q.n(),
        dot_rows_s(st.fac, p) == vzeros_s::<real>(st.fac.len()),
    ensures
        ({
            let moved = AsState { x: vadd_s(st.x, vscale_s(a, p)), fac: st.fac, ws: st.ws };
            kept(ctx, moved)
        }),
{
    let q = ctx.q;
    let ap = vscale_s(a, p);
    let moved = AsState { x: vadd_s(st.x, ap), fac: st.fac, ws: st.ws };
    let zero = vzeros_s::<real>(st.fac.len());
    assert forall|k: int| 0 <= k < st.ws.len() implies #[trigger] reached(ctx, moved, k) by {
        assert(reached(ctx, st, k));
        let j = q.be.len() + k;
        assert(st.fac.rows[j] == active_row_s(q, st.ws, j));
        assert(dot_rows_s(st.fac, p)[j] == zero[j]);
        let row = q.ai.rows[st.ws[k] as int];
        assert(st.ws[k] < q.bi.len());
        lemma_dot_add(row, st.x, ap);
        lemma_dot_scale(row, a, p);
        assert(a * 0real == 0real) by (nonlinear_arith);
    }
}

proof fn lemma_drop_kept(ctx: AsCtx<real>, st: AsState<real>, k: int)
    requires
        0 <= k < st.ws.len(),
        kept(ctx, st),
    ensures
        kept(ctx, drop_s(ctx.q, st, k)),
{
    let d = drop_s(ctx.q, st, k);
    assert forall|j: int| 0 <= j < d.ws.len() implies #[trigger] reached(ctx, d, j) by {
        assert(reached(ctx, st, if j < k { j } else { j + 1 }));
    }
}

proof fn lemma_advance_kept(ctx: AsCtx<real>, st: AsState<real>, p: Seq<real>, iter: usize)
    requires
        sound(ctx),
        good(ctx, st),
        kept(ctx, st),
        p.len() == ctx.q.n(),
        dot_rows_s(st.fac, p) == vzeros_s::<real>(st.fac.len()),
    ensures
        advance_s(ctx, st, p, iter) matches AsNext::Go(next) ==> kept(ctx, next),
{
    let q = ctx.q;
    let step = step_length_s(q, st.x, p, st.ws, ctx.cfg, q.bi.len());
    lemma_step_length_range(q, st.x, p, st.ws, ctx.cfg, q.bi.len());
    lemma_blocked(q, st.x, p, st.ws, ctx.cfg, q.bi.len());
    lemma_still_reached(ctx, st, p, step.0);
    let ap = vscale_s(step.0, p);
    let x = vadd_s(st.x, ap);
    let moved = AsState { x, fac: st.fac, ws: st.ws };
    lemma_lit_pos(1, -12);
    match step.1 {
        None => {},
        Some(b) => match try_push_s(st.fac, q.ai.rows[b as int], ctx.chol) {
            Some(f) => {
                let next = AsState { x, fac: f, ws: st.ws.push(b) };
                assert forall|k: int| 0 <= k < next.ws.len() implies #[trigger] reached(
                    ctx,
                    next,
                    k,
                ) by {
                    if k < st.ws.len() {
                        assert(reached(ctx, moved, k));
                    } else {
                        let row = q.ai.rows[b as int];
                        lemma_dot_add(row, st.x, ap);
                        lemma_dot_scale(row, step.0, p);
                    }
                }
            },
            None => {
                if st.fac.len() > 0 && st.ws.len() > 0 {
                    lemma_drop_kept(ctx, moved, st.ws.len() - 1);
                }
            },
        },
    }
}

/// An iteration leaves no row of the working set behind.
pub proof fn lemma_step_kept(ctx: AsCtx<real>, st: AsState<real>, iter: usize)
    requires
        sound(ctx),
        good(ctx, st),
        kept(ctx, st),
    ensures
        as_step_s(ctx, st, iter) matches AsNext::Go(next) ==> kept(ctx, next),
{
    let q = ctx.q;
    let grad = vadd_s(mvec_s(ctx.h_it, st.x), q.c);
    let r = chol_solve_s(ctx.chol, vneg_s(grad));
    let nu = solve_schur_s(st.fac, dot_rows_s(st.fac, r));
    let p = project_s(st.fac, r, nu);
    law_step_exact(st.fac, ctx.chol, ctx.h_it, grad);
    lemma_advance_kept(ctx, st, p, iter);
    if st.fac.len() == 0 {
        assert(p == r);
    } else if norm_s(p) < ctx.cfg.optimality_tol {
        lemma_leave_range(ctx, st, nu, iter);
        match leave_s(ctx, st, nu, iter) {
            None => {},
            Some(k) => {
                lemma_drop_kept(ctx, st, k);
            },
        }
    }
}

/// Seeding from rows that are reached leaves them reached.
pub proof fn lemma_seed_kept(
    ctx: AsCtx<real>,
    f: Fac<real>,
    x: Seq<real>,
    seed: Seq<usize>,
    n: nat,
)
    requires
        n <= seed.len(),
        forall|k: int|
            0 <= k < seed.len() ==> row_dot_s(ctx.q.ai, #[trigger] seed[k] as int, x)
                >= ctx.q.bi[seed[k] as int] - slackness_s(ctx.cfg),
    ensures
        ({
            let s = seeded_s(ctx.q, ctx.chol, f, seed, n);
            kept(ctx, AsState { x, fac: s.0, ws: s.1 })
        }),
    decreases n,
{
    if n > 0 {
        lemma_seed_kept(ctx, f, x, seed, (n - 1) as nat);
        let head = seeded_s(ctx.q, ctx.chol, f, seed, (n - 1) as nat);
        let s = seeded_s(ctx.q, ctx.chol, f, seed, n);
        let (old_st, st) = (
            AsState { x, fac: head.0, ws: head.1 },
            AsState { x, fac: s.0, ws: s.1 },
        );
        assert forall|k: int| 0 <= k < st.ws.len() implies #[trigger] reached(ctx, st, k) by {
            if k < head.1.len() {
                assert(reached(ctx, old_st, k));
            } else {
                assert(st.ws[k] == seed[n - 1]);
            }
        }
    }
}

proof fn lemma_near_rows(q: Qp<real>, x: Seq<real>, n: nat, cfg: QpConfig<real>)
    requires
        n <= q.bi.len() <= usize::MAX,
    ensures
        ({
            let s = active_at_s(q, x, n, cfg);
            forall|k: int|
                0 <= k < s.len() ==> row_dot_s(q.ai, #[trigger] s[k] as int, x)
                    >= q.bi[s[k] as int] - slackness_s(cfg)
        }),
    decreases n,
{
    if n > 0 {
        lemma_near_rows(q, x, (n - 1) as nat, cfg);
        let head = active_at_s(q, x, (n - 1) as nat, cfg);
        let s = active_at_s(q, x, n, cfg);
        assert forall|k: int| 0 <= k < s.len() implies row_dot_s(q.ai, #[trigger] s[k] as int, x)
            >= q.bi[s[k] as int] - slackness_s(cfg) by {
            if k < head.len() {
                assert(s[k] == head[k]);
            } else {
                assert(near_s(q, x, n - 1, cfg));
            }
        }
    }
}

proof fn lemma_tight_rows(q: Qp<real>, x: Seq<real>, ws: Seq<usize>, n: nat, cfg: QpConfig<real>)
    requires
        n <= ws.len(),
    ensures
        ({
            let s = still_tight_s(q, x, ws, n, cfg);
            forall|k: int|
                0 <= k < s.len() ==> row_dot_s(q.ai, #[trigger] s[k] as int, x)
                    >= q.bi[s[k] as int] - slackness_s(cfg)
        }),
    decreases n,
{
    if n > 0 {
        lemma_tight_rows(q, x, ws, (n - 1) as nat, cfg);
        let head = still_tight_s(q, x, ws, (n - 1) as nat, cfg);
        let s = still_tight_s(q, x, ws, n, cfg);
        assert forall|k: int| 0 <= k < s.len() implies row_dot_s(q.ai, #[trigger] s[k] as int, x)
            >= q.bi[s[k] as int] - slackness_s(cfg) by {
            if k < head.len() {
                assert(s[k] == head[k]);
            } else {
                assert(tight_s(q, x, ws[n - 1] as int, cfg));
            }
        }
    }
}

/// The seed rows of any start are reached.
pub proof fn lemma_start_rows(
    q: Qp<real>,
    x0: Option<Seq<real>>,
    cfg: QpConfig<real>,
    prior: Option<Warm<real>>,
    rows: Seq<usize>,
)
    requires
        q.bi.len() <= usize::MAX,
        rows == (match start_s(q, x0, cfg, prior).1 {
            Some(rows) => rows,
            None => active_at_s(q, start_s(q, x0, cfg, prior).0, q.bi.len(), cfg),
        }),
    ensures
        forall|k: int|
            0 <= k < rows.len() ==> row_dot_s(
                q.ai,
                #[trigger] rows[k] as int,
                start_s(q, x0, cfg, prior).0,
            ) >= q.bi[rows[k] as int] - slackness_s(cfg),
{
    let x = start_s(q, x0, cfg, prior).0;
    match warm_start_s(q, cfg, prior) {
        Some(w) => {
            let ws = prior->0.working_set;
            lemma_tight_rows(q, x, ws, ws.len(), cfg);
        },
        None => {
            lemma_near_rows(q, x, q.bi.len(), cfg);
        },
    }
}

} // verus!
