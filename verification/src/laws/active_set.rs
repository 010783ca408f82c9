//! Laws of the active-set method in exact arithmetic: descent, feasibility and
//! optimality.

use vstd::prelude::*;

use crate::active_set::{
    active_row_s, active_set_s, advance_s, as_run_s, as_step_s, context_s, eq_factor_s, finish_s,
    kkt_rhs_s, kkt_s, leave_s, lemma_leave_range, lemma_step_length_range, negative_s,
    polish_dual_s, polish_keeps_s, polish_ok_s, polish_s, scatter_s, seeded_s, steepest_s,
    step_length_s, AsCtx, AsNext, AsOut, AsState,
};
use crate::active_start::{
    active_at_s, diag_s, feasible_s, h_it_s, ill_s, iq_off_s, prepare_s, ridge_s, start_s, vabs_s,
    x0_fits_s,
};
use crate::dense::{
    amax_s, amax_upto_s, dot_s, mvec_s, norm_s, shift_diag_s, slice_s, transpose_s, vadd_s, vmin_s,
    vmin_upto_s, vneg_s, vscale_s, vsub_s, vzeros_s, Mat,
};
use crate::exact::{
    distrib, lemma_dot_add, lemma_dot_comm, lemma_dot_scale, lemma_dot_zero, lemma_mvec_add,
    lemma_mvec_scale,
};
use crate::factor::{dot_rows_s, project_s, solve_schur_s, try_push_s, Fac};
use crate::kernels::{as_col_s, is_cholesky, is_regular, lu_vec_s, DenseKernels};
use crate::laws::null_space::law_regular_solvable;
use crate::laws::factor::{
    active_s, exact_factor, factors, law_empty_exact, law_push_exact, law_remove_exact,
    law_step_exact, lemma_lit_pos,
};
use crate::laws::kkt::{
    at_least, lagrangian_s, law_kkt_system, lemma_gram_psd, lemma_lu_vec, lemma_multipliers,
    lemma_objective_along, lemma_scatter_at, rows_of_s, within_by,
};
use crate::laws::rotation::lemma_over;
use crate::laws::triangular::{law_cholesky_rows, law_gram_symmetric};
use crate::laws::tight::{
    kept, lemma_seed_kept, lemma_start_rows, lemma_step_kept, reached, slackness_s,
};
use crate::laws::working_set::{
    consistent, exit_ok, is_working_set, iterates, law_active_set_exit, law_bland, lemma_active_at,
    lemma_drop, lemma_join, lemma_moved, lemma_scatter_outside, lemma_seeded, lemma_start, outside,
};
use crate::qp::{objective_s, row_dot_s, Qp, QpConfig, QpStatus, Warm};
use crate::scalar::{lit_s, roots_exist, Arith};
use crate::triangular::chol_solve_s;

verus! {

/// The Hessian is factored and the tolerances are not negative.
pub open spec fn sound(ctx: AsCtx<real>) -> bool {
    &&& ctx.wf()
    &&& factors(ctx.chol, ctx.h_it)
    &&& ctx.cfg.feasibility_tol >= 0real
    &&& ctx.cfg.optimality_tol >= 0real
    &&& ctx.q.bi.len() <= usize::MAX
}

/// The state is consistent and its factor exact.
pub open spec fn good(ctx: AsCtx<real>, st: AsState<real>) -> bool {
    consistent(ctx.q, st) && exact_factor(st.fac, ctx.h_it)
}

/// `y` follows `x` on the way down: on the same equalities, at most `b` further
/// outside any inequality, and at no higher cost.
pub open spec fn descends(ctx: AsCtx<real>, x: Seq<real>, y: Seq<real>, b: real) -> bool {
    &&& y.len() == ctx.q.n()
    &&& mvec_s(ctx.q.ae, y) == mvec_s(ctx.q.ae, x)
    &&& objective_s(ctx.h_it, ctx.q.c, y) <= objective_s(ctx.h_it, ctx.q.c, x)
    &&& forall|e: real| e >= 0real && #[trigger] within_by(ctx.q, x, e) ==> within_by(ctx.q, y, e + b)
}

/// Row `i` limits a step along `p`: it is outside the working set, and the
/// direction runs into it.
pub open spec fn limits(
    q: Qp<real>,
    p: Seq<real>,
    ws: Seq<usize>,
    cfg: QpConfig<real>,
    i: int,
) -> bool {
    outside(ws, i) && cfg.feasibility_tol < row_dot_s(q.ai, i, p)
}

/// A step of length `a` along `p` takes the room that row `i` leaves at `x`, and
/// no more: none where the row is already exceeded.
pub open spec fn uses_room(
    q: Qp<real>,
    x: Seq<real>,
    p: Seq<real>,
    i: int,
    a: real,
) -> bool {
    a * row_dot_s(q.ai, i, p) == (q.bi[i] - row_dot_s(q.ai, i, x)).max_s(0real)
}

/// A step of length `a` along `p` takes more.
pub open spec fn overruns(q: Qp<real>, x: Seq<real>, p: Seq<real>, i: int, a: real) -> bool {
    a * row_dot_s(q.ai, i, p) > (q.bi[i] - row_dot_s(q.ai, i, x)).max_s(0real)
}

/// The step length lies between zero and one and keeps every inequality that
/// the direction runs into. It is the longest such: a full step where nothing
/// blocks, and otherwise the blocking row is one that limits the step, and it is
/// reached exactly, so that any longer step breaks it.
pub proof fn law_step_length(
    q: Qp<real>,
    x: Seq<real>,
    p: Seq<real>,
    ws: Seq<usize>,
    cfg: QpConfig<real>,
    n: nat,
)
    requires
        cfg.feasibility_tol >= 0real,
        n <= usize::MAX,
    ensures
        ({
            let a = step_length_s(q, x, p, ws, cfg, n).0;
            &&& 0real <= a <= 1real
            &&& forall|i: int|
                0 <= i < n && outside(ws, i) && cfg.feasibility_tol < #[trigger] row_dot_s(
                    q.ai,
                    i,
                    p,
                ) ==> a * row_dot_s(q.ai, i, p) <= (q.bi[i] - row_dot_s(q.ai, i, x)).max_s(0real)
            &&& match step_length_s(q, x, p, ws, cfg, n).1 {
                None => a == 1real,
                Some(b) => {
                    &&& b < n
                    &&& a < 1real
                    &&& limits(q, p, ws, cfg, b as int)
                    &&& uses_room(q, x, p, b as int, a)
                    &&& forall|c: real|
                        c > a ==> #[trigger] overruns(q, x, p, b as int, c)
                },
            }
        }),
    decreases n,
{
    if n > 0 {
        law_step_length(q, x, p, ws, cfg, (n - 1) as nat);
        let head = step_length_s(q, x, p, ws, cfg, (n - 1) as nat).0;
        let a = step_length_s(q, x, p, ws, cfg, n).0;
        let k = n - 1;
        let (room, rate) = (q.bi[k] - row_dot_s(q.ai, k, x), row_dot_s(q.ai, k, p));
        if outside(ws, k) && cfg.feasibility_tol < rate {
            let u = room / rate;
            lemma_over(room, rate);
            distrib(rate, u, 0real);
            if u < 0real {
                assert(room <= 0real) by (nonlinear_arith)
                    requires
                        u * rate == room,
                        u < 0real,
                        rate > 0real,
                ;
                assert(0real * rate == 0real) by (nonlinear_arith);
            } else {
                assert(room >= 0real) by (nonlinear_arith)
                    requires
                        u * rate == room,
                        u >= 0real,
                        rate > 0real,
                ;
            }
            let v = u.max_s(0real);
            assert(v * rate == room.max_s(0real));
            assert forall|c: real| c > v implies #[trigger] overruns(q, x, p, k, c) by {
                assert(c * rate > v * rate) by (nonlinear_arith)
                    requires
                        c > v,
                        rate > 0real,
                ;
            }
        }
        assert forall|i: int|
            0 <= i < n && outside(ws, i) && cfg.feasibility_tol < #[trigger] row_dot_s(
                q.ai,
                i,
                p,
            ) implies a * row_dot_s(q.ai, i, p) <= (q.bi[i] - row_dot_s(q.ai, i, x)).max_s(
            0real,
        ) by {
            let d = row_dot_s(q.ai, i, p);
            let top = (q.bi[i] - row_dot_s(q.ai, i, x)).max_s(0real);
            if i < k {
                assert(a * d <= top) by (nonlinear_arith)
                    requires
                        a <= head,
                        d > 0real,
                        head * d <= top,
                ;
            } else {
                let u = room / rate;
                lemma_over(room, rate);
                distrib(rate, u, 0real);
                let v = u.max_s(0real);
                assert(a <= v);
                assert(v * d <= top) by {
                    if u < 0real {
                        assert(0real * d == 0real) by (nonlinear_arith);
                    }
                }
                assert(a * d <= top) by (nonlinear_arith)
                    requires
                        a <= v,
                        d > 0real,
                        v * d <= top,
                ;
            }
        }
    }
}

/// Moving along a step of the active-set method goes down.
proof fn lemma_move(
    ctx: AsCtx<real>,
    st: AsState<real>,
    p: Seq<real>,
    nu: Seq<real>,
)
    requires
        sound(ctx),
        good(ctx, st),
        p.len() == ctx.q.n(),
        nu.len() == st.fac.len(),
        dot_rows_s(st.fac, p) == vzeros_s::<real>(st.fac.len()),
        vadd_s(mvec_s(ctx.h_it, p), mvec_s(transpose_s(active_s(st.fac, ctx.q.n())), nu))
            == vneg_s(vadd_s(mvec_s(ctx.h_it, st.x), ctx.q.c)),
    ensures
        ({
            let a = step_length_s(ctx.q, st.x, p, st.ws, ctx.cfg, ctx.q.bi.len()).0;
            descends(ctx, st.x, vadd_s(st.x, vscale_s(a, p)), ctx.cfg.feasibility_tol)
        }),
{
    let q = ctx.q;
    let n = q.n();
    let tol = ctx.cfg.feasibility_tol;
    let a = step_length_s(q, st.x, p, st.ws, ctx.cfg, q.bi.len()).0;
    let ap = vscale_s(a, p);
    let y = vadd_s(st.x, ap);
    law_step_length(q, st.x, p, st.ws, ctx.cfg, q.bi.len());
    let zero = vzeros_s::<real>(st.fac.len());
    // equalities
    assert forall|k: int| 0 <= k < q.be.len() implies mvec_s(q.ae, p)[k] == 0real by {
        assert(st.fac.rows[k] == active_row_s(q, st.ws, k));
        assert(dot_rows_s(st.fac, p)[k] == zero[k]);
    }
    lemma_mvec_add(q.ae, st.x, ap);
    lemma_mvec_scale(q.ae, a, p);
    assert forall|k: int| 0 <= k < q.be.len() implies mvec_s(q.ae, y)[k] == mvec_s(q.ae, st.x)[k] by {
        assert(a * 0real == 0real) by (nonlinear_arith);
        assert(mvec_s(q.ae, p)[k] == 0real);
    }
    assert(mvec_s(q.ae, y) =~= mvec_s(q.ae, st.x));
    // inequalities
    assert forall|e: real| e >= 0real && #[trigger] within_by(q, st.x, e) implies within_by(
        q,
        y,
        e + tol,
    ) by {
        assert forall|i: int| 0 <= i < q.bi.len() implies #[trigger] row_dot_s(q.ai, i, y)
            <= q.bi[i] + (e + tol) by {
            let (ax, rate) = (row_dot_s(q.ai, i, st.x), row_dot_s(q.ai, i, p));
            assert(ax <= q.bi[i] + e);
            lemma_dot_add(q.ai.rows[i], st.x, ap);
            lemma_dot_scale(q.ai.rows[i], a, p);
            assert(row_dot_s(q.ai, i, y) == ax + a * rate);
            if st.ws.contains(i as usize) {
                let k = choose|k: int| 0 <= k < st.ws.len() && st.ws[k] == i as usize;
                let j = q.be.len() + k;
                assert(st.fac.rows[j] == active_row_s(q, st.ws, j));
                assert(dot_rows_s(st.fac, p)[j] == zero[j]);
                assert(a * 0real == 0real) by (nonlinear_arith);
            } else if tol < rate {
                assert(outside(st.ws, i));
                assert(a * rate <= (q.bi[i] - ax).max_s(0real));
            } else {
                assert(a * rate <= tol) by (nonlinear_arith)
                    requires
                        0real <= a <= 1real,
                        rate <= tol,
                        tol >= 0real,
                ;
            }
        }
    }
    // cost
    law_gram_symmetric(ctx.chol);
    lemma_objective_along(ctx.h_it, q.c, st.x, p, a);
    let g = vadd_s(mvec_s(ctx.h_it, st.x), q.c);
    let hp = mvec_s(ctx.h_it, p);
    let act = active_s(st.fac, n);
    let an = mvec_s(transpose_s(act), nu);
    lemma_dot_add(p, hp, an);
    lemma_dot_scale(p, 0real, g);
    crate::exact::lemma_adjoint(act, p, nu);
    assert(mvec_s(act, p) =~= dot_rows_s(st.fac, p));
    lemma_dot_zero(nu, st.fac.len());
    lemma_dot_comm(p, an);
    lemma_dot_comm(p, g);
    let t = dot_s(p, hp);
    assert(dot_s(g, p) == -t);
    lemma_gram_psd(ctx.chol, p);
    assert(a * (-t) + (1real / 2real) * ((a * a) * t) <= 0real) by {
        let s = a * a;
        assert(s <= a) by (nonlinear_arith)
            requires
                s == a * a,
                0real <= a <= 1real,
        ;
        assert(s * t <= a * t) by (nonlinear_arith)
            requires
                s <= a,
                t >= 0real,
        ;
        assert(a * t >= 0real) by (nonlinear_arith)
            requires
                a >= 0real,
                t >= 0real,
        ;
        distrib(a, t, 0real);
    }
}

proof fn lemma_descends_same(ctx: AsCtx<real>, x: Seq<real>, b: real)
    requires
        x.len() == ctx.q.n(),
        b >= 0real,
    ensures
        descends(ctx, x, x, b),
{
    assert forall|e: real| e >= 0real && #[trigger] within_by(ctx.q, x, e) implies within_by(
        ctx.q,
        x,
        e + b,
    ) by {
        assert forall|i: int| 0 <= i < ctx.q.bi.len() implies #[trigger] row_dot_s(ctx.q.ai, i, x)
            <= ctx.q.bi[i] + (e + b) by {}
    }
}

proof fn lemma_advance_good(
    ctx: AsCtx<real>,
    st: AsState<real>,
    p: Seq<real>,
    nu: Seq<real>,
    iter: usize,
)
    requires
        sound(ctx),
        roots_exist(),
        good(ctx, st),
        p.len() == ctx.q.n(),
        nu.len() == st.fac.len(),
        dot_rows_s(st.fac, p) == vzeros_s::<real>(st.fac.len()),
        vadd_s(mvec_s(ctx.h_it, p), mvec_s(transpose_s(active_s(st.fac, ctx.q.n())), nu))
            == vneg_s(vadd_s(mvec_s(ctx.h_it, st.x), ctx.q.c)),
    ensures
        match advance_s(ctx, st, p, iter) {
            AsNext::Go(next) => good(ctx, next) && descends(
                ctx,
                st.x,
                next.x,
                ctx.cfg.feasibility_tol,
            ),
            AsNext::Stop(out) => out.sol.status == QpStatus::NumericalFailure && out.sol.iterations
                == iter && descends(ctx, st.x, out.sol.x, ctx.cfg.feasibility_tol),
        },
{
    let q = ctx.q;
    lemma_move(ctx, st, p, nu);
    let step = step_length_s(q, st.x, p, st.ws, ctx.cfg, q.bi.len());
    lemma_step_length_range(q, st.x, p, st.ws, ctx.cfg, q.bi.len());
    let x = vadd_s(st.x, vscale_s(step.0, p));
    let moved = AsState { x, fac: st.fac, ws: st.ws };
    lemma_moved(q, st, x);
    match step.1 {
        None => {},
        Some(b) => match try_push_s(st.fac, q.ai.rows[b as int], ctx.chol) {
            Some(f) => {
                lemma_join(q, moved, b, ctx.chol, f);
                law_push_exact(st.fac, q.ai.rows[b as int], ctx.chol, ctx.h_it, f);
            },
            None => {
                if st.fac.len() > 0 && st.ws.len() > 0 {
                    let k = st.ws.len() - 1;
                    lemma_drop(q, moved, k);
                    law_remove_exact(st.fac, q.be.len() + k, ctx.h_it);
                }
            },
        },
    }
}

/// The steepest rule takes the most negative multiplier, and something
/// wherever one is below the tolerance.
pub proof fn law_steepest(nu: Seq<real>, m_eq: nat, cfg: QpConfig<real>, n: nat)
    requires
        cfg.optimality_tol >= 0real,
    ensures
        match steepest_s(nu, m_eq, cfg, n).1 {
            None => forall|j: int| 0 <= j < n ==> !#[trigger] negative_s(nu, m_eq, j, cfg),
            Some(k) => {
                &&& 0 <= k < n
                &&& negative_s(nu, m_eq, k, cfg)
                &&& forall|j: int|
                    0 <= j < n && #[trigger] negative_s(nu, m_eq, j, cfg) ==> nu[m_eq + k]
                        <= nu[m_eq + j]
            },
        },
    decreases n,
{
    lemma_steepest(nu, m_eq, cfg, n);
}

proof fn lemma_steepest(nu: Seq<real>, m_eq: nat, cfg: QpConfig<real>, n: nat)
    requires
        cfg.optimality_tol >= 0real,
    ensures
        match steepest_s(nu, m_eq, cfg, n).1 {
            None => steepest_s(nu, m_eq, cfg, n).0 == 0real && forall|j: int|
                0 <= j < n ==> !#[trigger] negative_s(nu, m_eq, j, cfg),
            Some(k) => {
                &&& 0 <= k < n
                &&& negative_s(nu, m_eq, k, cfg)
                &&& steepest_s(nu, m_eq, cfg, n).0 == nu[m_eq + k]
                &&& forall|j: int|
                    0 <= j < n && #[trigger] negative_s(nu, m_eq, j, cfg) ==> nu[m_eq + k]
                        <= nu[m_eq + j]
            },
        },
    decreases n,
{
    if n > 0 {
        lemma_steepest(nu, m_eq, cfg, (n - 1) as nat);
        let k = n - 1;
        assert(negative_s(nu, m_eq, k, cfg) == (nu[m_eq + k] < -cfg.optimality_tol));
        assert(nu[m_eq + n - 1] == nu[m_eq + k]);
    }
}

/// `x` and the multipliers are dual feasible for the problem with Hessian `h` up
/// to a step shorter than `tol`: the gradient of the Lagrangian vanishes at
/// `x + p`, and no multiplier of an inequality is below `-tol`.
pub open spec fn near_kkt(
    q: Qp<real>,
    h: Mat<real>,
    x: Seq<real>,
    le: Seq<real>,
    li: Seq<real>,
    p: Seq<real>,
    tol: real,
) -> bool {
    &&& p.len() == q.n()
    &&& norm_s(p) < tol
    &&& lagrangian_s(q, h, vadd_s(x, p), le, li) == vzeros_s::<real>(q.n())
    &&& at_least(li, -tol)
}

/// The polished exit: the optimality conditions of the original problem hold,
/// exactly on the working set and the equalities, and up to ten tolerances for
/// the other inequalities and the signs.
pub open spec fn polished(
    q: Qp<real>,
    cfg: QpConfig<real>,
    x: Seq<real>,
    le: Seq<real>,
    li: Seq<real>,
    ws: Seq<usize>,
) -> bool {
    &&& lagrangian_s(q, q.h, x, le, li) == vzeros_s::<real>(q.n())
    &&& mvec_s(q.ae, x) == q.be
    &&& forall|k: int|
        0 <= k < ws.len() ==> row_dot_s(q.ai, #[trigger] ws[k] as int, x) == q.bi[ws[k] as int]
    &&& within_by(q, x, 10real * cfg.feasibility_tol)
    &&& at_least(li, -(10real * cfg.optimality_tol))
}

/// Ten, as a literal.
proof fn lemma_ten()
    ensures
        lit_s::<real>(10, 0) == 10real,
        lit_s::<real>(-10, 0) == -10real,
{
    reveal_with_fuel(crate::scalar::pow10, 1);
    assert(crate::scalar::pow10(0) == 1real);
    assert(lit_s::<real>(10, 0) == 10real * crate::scalar::pow10(0));
    assert(lit_s::<real>(-10, 0) == (-10real) * crate::scalar::pow10(0));
}

/// A polish that is accepted meets the optimality conditions of the original
/// problem.
pub proof fn law_polish(
    q: Qp<real>,
    li0: Seq<real>,
    ws: Seq<usize>,
    cfg: QpConfig<real>,
    z: Seq<real>,
)
    requires
        q.wf(),
        q.bi.len() <= usize::MAX,
        is_working_set(q, ws),
        li0.len() == q.bi.len(),
        forall|i: int| 0 <= i < q.bi.len() && #[trigger] outside(ws, i) ==> li0[i] == 0real,
        cfg.feasibility_tol >= 0real,
        cfg.optimality_tol >= 0real,
        lu_vec_s(kkt_s(q, ws), kkt_rhs_s(q, ws)) == Some(z),
        polish_ok_s(q, z, ws, cfg),
    ensures
        polished(
            q,
            cfg,
            slice_s(z, 0, q.n()),
            slice_s(z, q.n(), q.be.len()),
            scatter_s(li0, ws, z, q.n() + q.be.len(), ws.len()),
            ws,
        ),
{
    let (n, me) = (q.n(), q.be.len());
    let (x, le) = (slice_s(z, 0, n), slice_s(z, n, me));
    let li = scatter_s(li0, ws, z, n + me, ws.len());
    let nu = slice_s(z, n, me + ws.len());
    law_kkt_system(q, ws, z);
    lemma_ten();
    lemma_scatter_outside(li0, ws, z, n + me, ws.len());
    assert forall|i: int| 0 <= i < q.bi.len() && #[trigger] outside(ws, i) implies li[i]
        == 0real by {
        assert(li[i] == li0[i]);
    }
    assert forall|k: int| 0 <= k < ws.len() implies li[#[trigger] ws[k] as int] == nu[me + k] by {
        lemma_scatter_at(li0, ws, z, n + me, ws.len(), k);
    }
    assert(le =~= slice_s(nu, 0, me));
    lemma_multipliers(q, ws, nu, le, li);
    let g = vadd_s(mvec_s(q.h, x), q.c);
    let (a, b) = (mvec_s(transpose_s(q.ae), le), mvec_s(transpose_s(q.ai), li));
    assert(vadd_s(vadd_s(g, a), b) =~= vadd_s(g, vadd_s(a, b)));
    let f = cfg.feasibility_tol;
    assert forall|i: int| 0 <= i < q.bi.len() implies #[trigger] row_dot_s(q.ai, i, x) <= q.bi[i]
        + 10real * f by {
        if ws.contains(i as usize) {
            let k = choose|k: int| 0 <= k < ws.len() && ws[k] == i as usize;
            assert(row_dot_s(q.ai, ws[k] as int, x) == q.bi[ws[k] as int]);
        } else {
            assert(polish_keeps_s(q, z, i, cfg));
        }
    }
    assert forall|i: int| 0 <= i < li.len() implies #[trigger] li[i] >= -(10real
        * cfg.optimality_tol) by {
        if ws.contains(i as usize) {
            let k = choose|k: int| 0 <= k < ws.len() && ws[k] == i as usize;
            assert(polish_dual_s(q, z, k, cfg));
            lemma_scatter_at(li0, ws, z, n + me, ws.len(), k);
            let t = cfg.optimality_tol;
            assert((-10real) * t == -(10real * t));
        } else {
            assert(outside(ws, i));
        }
    }
}

/// What an exit of the iterations that began at `x` with the factored Hessian
/// promises.
pub open spec fn exit_optimal(ctx: AsCtx<real>, st: AsState<real>, out: AsOut<real>) -> bool {
    let q = ctx.q;
    let sol = out.sol;
    ||| ctx.ridged && polished(
        q,
        ctx.cfg,
        sol.x,
        sol.lambda_eq,
        sol.lambda_iq,
        out.warm.working_set,
    )
    ||| sol.x == st.x && exists|p: Seq<real>|
        near_kkt(
            q,
            ctx.h_it,
            sol.x,
            sol.lambda_eq,
            sol.lambda_iq,
            p,
            ctx.cfg.optimality_tol,
        )
}

/// The optimal exit meets the optimality conditions.
proof fn lemma_finish_optimal(
    ctx: AsCtx<real>,
    st: AsState<real>,
    p: Seq<real>,
    nu: Seq<real>,
    le: Seq<real>,
    li: Seq<real>,
    iter: usize,
)
    requires
        sound(ctx),
        good(ctx, st),
        p.len() == ctx.q.n(),
        nu.len() == st.fac.len(),
        vadd_s(mvec_s(ctx.h_it, p), mvec_s(transpose_s(active_s(st.fac, ctx.q.n())), nu))
            == vneg_s(vadd_s(mvec_s(ctx.h_it, st.x), ctx.q.c)),
        norm_s(p) < ctx.cfg.optimality_tol,
        forall|k: int|
            0 <= k < st.ws.len() ==> !#[trigger] negative_s(nu, ctx.q.be.len(), k, ctx.cfg),
        le == slice_s(nu, 0, ctx.q.be.len()),
        li == scatter_s(
            vzeros_s::<real>(ctx.q.bi.len()),
            st.ws,
            nu,
            ctx.q.be.len(),
            st.ws.len(),
        ),
    ensures
        exit_optimal(ctx, st, finish_s(ctx, st, le, li, iter)),
{
    let q = ctx.q;
    let (n, me) = (q.n(), q.be.len());
    let zero = vzeros_s::<real>(q.bi.len());
    lemma_scatter_outside(zero, st.ws, nu, me, st.ws.len());
    assert forall|k: int| 0 <= k < st.ws.len() implies li[#[trigger] st.ws[k] as int] == nu[me
        + k] by {
        lemma_scatter_at(zero, st.ws, nu, me, st.ws.len(), k);
    }
    assert forall|i: int| 0 <= i < q.bi.len() && #[trigger] outside(st.ws, i) implies li[i]
        == 0real by {
        assert(li[i] == zero[i]);
    }
    lemma_multipliers(q, st.ws, nu, le, li);
    assert(active_s(st.fac, n).rows =~= rows_of_s(q, st.ws).rows) by {
        assert forall|k: int| 0 <= k < st.fac.len() implies st.fac.rows[k] == active_row_s(
            q,
            st.ws,
            k,
        ) by {
            assert(st.fac.rows[k] == active_row_s(q, st.ws, k));
        }
    }
    let (a, b) = (mvec_s(transpose_s(q.ae), le), mvec_s(transpose_s(q.ai), li));
    let an = mvec_s(transpose_s(active_s(st.fac, n)), nu);
    lemma_mvec_add(ctx.h_it, st.x, p);
    let lag = lagrangian_s(q, ctx.h_it, vadd_s(st.x, p), le, li);
    let g = vadd_s(mvec_s(ctx.h_it, st.x), q.c);
    let hp = mvec_s(ctx.h_it, p);
    assert forall|i: int| 0 <= i < n implies lag[i] == 0real by {
        assert(vadd_s(hp, an)[i] == vneg_s(g)[i]);
        assert(an[i] == vadd_s(a, b)[i]);
    }
    assert(lag =~= vzeros_s::<real>(n));
    assert forall|i: int| 0 <= i < li.len() implies #[trigger] li[i] >= -ctx.cfg.optimality_tol by {
        if st.ws.contains(i as usize) {
            let k = choose|k: int| 0 <= k < st.ws.len() && st.ws[k] == i as usize;
            assert(!negative_s(nu, me, k, ctx.cfg));
            assert(li[st.ws[k] as int] == nu[me + k]);
        } else {
            assert(outside(st.ws, i));
        }
    }
    assert(near_kkt(q, ctx.h_it, st.x, le, li, p, ctx.cfg.optimality_tol));
    let sol = finish_s(ctx, st, le, li, iter).sol;
    let z = lu_vec_s(kkt_s(q, st.ws), kkt_rhs_s(q, st.ws));
    if ctx.ridged && z is Some && polish_ok_s(q, z->0, st.ws, ctx.cfg) {
        law_polish(q, li, st.ws, ctx.cfg, z->0);
        assert(polished(q, ctx.cfg, sol.x, sol.lambda_eq, sol.lambda_iq, st.ws));
    } else {
        assert(sol.x == st.x && sol.lambda_eq == le && sol.lambda_iq == li);
        assert(near_kkt(
            q,
            ctx.h_it,
            sol.x,
            sol.lambda_eq,
            sol.lambda_iq,
            p,
            ctx.cfg.optimality_tol,
        ));
    }
}

/// One iteration in exact arithmetic: the factor stays exact, the point
/// descends, and an optimal exit meets the optimality conditions.
pub proof fn law_iteration(ctx: AsCtx<real>, st: AsState<real>, iter: usize)
    requires
        sound(ctx),
        roots_exist(),
        good(ctx, st),
    ensures
        match as_step_s(ctx, st, iter) {
            AsNext::Go(next) => good(ctx, next) && descends(
                ctx,
                st.x,
                next.x,
                ctx.cfg.feasibility_tol,
            ),
            AsNext::Stop(out) => out.sol.iterations == iter && (out.sol.status == QpStatus::Optimal
                && exit_optimal(ctx, st, out) || out.sol.status == QpStatus::NumericalFailure
                && descends(ctx, st.x, out.sol.x, ctx.cfg.feasibility_tol)),
        },
{
    let q = ctx.q;
    let grad = vadd_s(mvec_s(ctx.h_it, st.x), q.c);
    let r = chol_solve_s(ctx.chol, vneg_s(grad));
    let nu = solve_schur_s(st.fac, dot_rows_s(st.fac, r));
    let p = project_s(st.fac, r, nu);
    law_step_exact(st.fac, ctx.chol, ctx.h_it, grad);
    lemma_descends_same(ctx, st.x, ctx.cfg.feasibility_tol);
    lemma_advance_good(ctx, st, p, nu, iter);
    if st.fac.len() == 0 {
        assert(p == r);
        if norm_s(r) < ctx.cfg.optimality_tol {
            let (le, li) = (vzeros_s::<real>(q.be.len()), vzeros_s::<real>(q.bi.len()));
            assert(le =~= slice_s(nu, 0, q.be.len()));
            lemma_finish_optimal(ctx, st, p, nu, le, li, iter);
        }
    } else if norm_s(p) < ctx.cfg.optimality_tol {
        lemma_leave_range(ctx, st, nu, iter);
        law_bland(nu, q.be.len(), st.ws, ctx.cfg, st.ws.len());
        law_steepest(nu, q.be.len(), ctx.cfg, st.ws.len());
        match leave_s(ctx, st, nu, iter) {
            None => {
                let le = slice_s(nu, 0, q.be.len());
                let li = scatter_s(vzeros_s(q.bi.len()), st.ws, nu, q.be.len(), st.ws.len());
                lemma_finish_optimal(ctx, st, p, nu, le, li, iter);
            },
            Some(k) => {
                lemma_drop(q, st, k);
                law_remove_exact(st.fac, q.be.len() + k, ctx.h_it);
            },
        }
    }
}

/// The number of tolerances that the inequalities may be exceeded by when
/// iteration `iter` begins.
pub open spec fn slack_s(cfg: QpConfig<real>, iter: int) -> real {
    ((iter + 1) as real) * cfg.feasibility_tol
}

proof fn lemma_slack(cfg: QpConfig<real>, iter: int)
    ensures
        slack_s(cfg, iter + 1) == slack_s(cfg, iter) + cfg.feasibility_tol,
        cfg.feasibility_tol >= 0real && iter >= -1 ==> slack_s(cfg, iter) >= 0real,
{
    let (k, t) = ((iter + 1) as real, cfg.feasibility_tol);
    distrib(k, 1real, t);
    assert((iter + 2) as real == k + 1real);
    if t >= 0real && iter >= -1 {
        assert(k * t >= 0real) by (nonlinear_arith)
            requires
                k >= 0real,
                t >= 0real,
        ;
    }
}

/// Every row of the working set `ws` is tight at `x`: at most `b` below its
/// bound.
pub open spec fn tight_within(q: Qp<real>, ws: Seq<usize>, x: Seq<real>, b: real) -> bool {
    forall|k: int|
        0 <= k < ws.len() ==> row_dot_s(q.ai, #[trigger] ws[k] as int, x) >= q.bi[ws[k] as int] - b
}

/// Complementary slackness: a multiplier that is not zero belongs to an
/// inequality whose value is at most `b` below its bound.
pub open spec fn complementary(q: Qp<real>, x: Seq<real>, li: Seq<real>, b: real) -> bool {
    forall|i: int|
        0 <= i < q.bi.len() ==> #[trigger] li[i] == 0real || row_dot_s(q.ai, i, x) >= q.bi[i] - b
}

/// What a run that began at `x` promises of its exit: it descends, exceeds each
/// inequality by at most one tolerance per iteration, and is optimal where it
/// says so, with a working set that is tight. A polished exit answers for
/// itself.
pub open spec fn run_ok(ctx: AsCtx<real>, x: Seq<real>, out: AsOut<real>) -> bool {
    let q = ctx.q;
    let sol = out.sol;
    ||| ctx.ridged && sol.status == QpStatus::Optimal && polished(
        q,
        ctx.cfg,
        sol.x,
        sol.lambda_eq,
        sol.lambda_iq,
        out.warm.working_set,
    )
    ||| {
        &&& mvec_s(q.ae, sol.x) == mvec_s(q.ae, x)
        &&& objective_s(ctx.h_it, q.c, sol.x) <= objective_s(ctx.h_it, q.c, x)
        &&& within_by(q, sol.x, slack_s(ctx.cfg, sol.iterations as int + 1))
        &&& sol.status == QpStatus::Optimal ==> tight_within(
            q,
            out.warm.working_set,
            sol.x,
            slackness_s(ctx.cfg),
        )
        &&& sol.status == QpStatus::Optimal ==> exists|p: Seq<real>|
            near_kkt(
                q,
                ctx.h_it,
                sol.x,
                sol.lambda_eq,
                sol.lambda_iq,
                p,
                ctx.cfg.optimality_tol,
            )
    }
}

proof fn lemma_within_more(q: Qp<real>, x: Seq<real>, a: real, b: real)
    requires
        within_by(q, x, a),
        a <= b,
    ensures
        within_by(q, x, b),
{
    assert forall|i: int| 0 <= i < q.bi.len() implies #[trigger] row_dot_s(q.ai, i, x) <= q.bi[i]
        + b by {
        assert(row_dot_s(q.ai, i, x) <= q.bi[i] + a);
    }
}

/// The iterations in exact arithmetic, from a good state on.
pub proof fn law_run(ctx: AsCtx<real>, st: AsState<real>, iter: usize)
    requires
        sound(ctx),
        roots_exist(),
        good(ctx, st),
        kept(ctx, st),
        within_by(ctx.q, st.x, slack_s(ctx.cfg, iter as int)),
        iter <= ctx.cfg.max_iters,
    ensures
        run_ok(ctx, st.x, as_run_s(ctx, st, iter)),
    decreases ctx.cfg.max_iters - iter,
{
    let (q, cfg) = (ctx.q, ctx.cfg);
    let out = as_run_s(ctx, st, iter);
    lemma_slack(cfg, iter as int);
    lemma_slack(cfg, iter as int + 1);
    if iter >= cfg.max_iters {
        lemma_within_more(q, st.x, slack_s(cfg, iter as int), slack_s(cfg, iter as int + 1));
    } else {
        law_iteration(ctx, st, iter);
        lemma_step_kept(ctx, st, iter);
        match as_step_s(ctx, st, iter) {
            AsNext::Go(next) => {
                assert(within_by(q, next.x, slack_s(cfg, iter as int) + cfg.feasibility_tol));
                law_run(ctx, next, (iter + 1) as usize);
            },
            AsNext::Stop(o) => {
                if o.sol.x == st.x {
                    assert forall|k: int| 0 <= k < st.ws.len() implies row_dot_s(
                        q.ai,
                        #[trigger] st.ws[k] as int,
                        st.x,
                    ) >= q.bi[st.ws[k] as int] - slackness_s(cfg) by {
                        assert(reached(ctx, st, k));
                    }
                    lemma_within_more(
                        q,
                        st.x,
                        slack_s(cfg, iter as int),
                        slack_s(cfg, iter as int + 1),
                    );
                } else {
                    assert(within_by(q, st.x, slack_s(cfg, iter as int)));
                }
            },
        }
    }
}

/// The equalities give an exact factor.
pub proof fn lemma_eq_exact(q: Qp<real>, chol: Seq<Seq<real>>, h: Mat<real>, n: nat)
    requires
        q.wf(),
        chol.len() == q.n(),
        factors(chol, h),
        n <= q.be.len(),
        roots_exist(),
    ensures
        eq_factor_s(q, chol, n) matches Some(f) ==> exact_factor(f, h),
    decreases n,
{
    if n == 0 {
        law_empty_exact(h);
    } else {
        lemma_eq_exact(q, chol, h, (n - 1) as nat);
        match eq_factor_s(q, chol, (n - 1) as nat) {
            Some(f) => match try_push_s(f, q.ae.rows[n - 1], chol) {
                Some(g) => {
                    law_push_exact(f, q.ae.rows[n - 1], chol, h, g);
                },
                None => {},
            },
            None => {},
        }
    }
}

/// Seeding keeps the factor exact.
proof fn lemma_seeded_exact(
    q: Qp<real>,
    chol: Seq<Seq<real>>,
    h: Mat<real>,
    f: Fac<real>,
    seed: Seq<usize>,
    n: nat,
)
    requires
        q.wf(),
        chol.len() == q.n(),
        factors(chol, h),
        exact_factor(f, h),
        n <= seed.len(),
        forall|k: int| 0 <= k < seed.len() ==> #[trigger] seed[k] < q.bi.len(),
        roots_exist(),
    ensures
        exact_factor(seeded_s(q, chol, f, seed, n).0, h),
    decreases n,
{
    if n > 0 {
        lemma_seeded_exact(q, chol, h, f, seed, (n - 1) as nat);
        let head = seeded_s(q, chol, f, seed, (n - 1) as nat);
        let i = seed[n - 1];
        if !head.1.contains(i) {
            match try_push_s(head.0, q.ai.rows[i as int], chol) {
                Some(g) => {
                    law_push_exact(head.0, q.ai.rows[i as int], chol, h, g);
                },
                None => {},
            }
        }
    }
}

/// The Hessian that the iterations see is the one that was factored.
pub proof fn law_prepared(h: Mat<real>, pre: (Mat<real>, real))
    requires
        h.shaped(h.nrows(), h.nrows()),
        prepare_s(h) == Some(pre),
    ensures
        is_cholesky(pre.0, h_it_s(h, pre.1)),
        factors(pre.0.rows, h_it_s(h, pre.1)),
        pre.0.shaped(h.nrows(), h.nrows()),
        pre.1 == 0real || pre.1 == ridge_s(h) && ridge_s(h) > 0real,
{
    let r = ridge_s(h);
    crate::laws::factor::lemma_lit_pos(1, -6);
    crate::laws::factor::lemma_lit_pos(1, -12);
    let (a, b) = (
        lit_s::<real>(1, -6),
        crate::dense::amax_s(crate::active_start::diag_s(h)).max_s(lit_s::<real>(1, -12)),
    );
    assert(a * b > 0real) by (nonlinear_arith)
        requires
            a > 0real,
            b > 0real,
    ;
    law_cholesky_rows(pre.0, h_it_s(h, pre.1));
}

/// The active-set method in exact arithmetic. Where it iterated, its answer
/// satisfies the equalities as its feasible start did, exceeds each inequality
/// by at most one feasibility tolerance per iteration, costs no more than the
/// start, and meets the optimality conditions within the tolerance where the
/// status says optimal: stationarity, signs, and complementary slackness, since
/// every row of the stored working set is tight and the other rows have zero
/// multipliers. An answer for a ridged Hessian speaks of the ridged cost, unless
/// it was polished: it then meets the optimality conditions of the original
/// problem.
pub proof fn law_active_set(
    q: Qp<real>,
    x0: Option<Seq<real>>,
    cfg: QpConfig<real>,
    prior: Option<Warm<real>>,
    pre: (Mat<real>, real),
)
    requires
        q.wf(),
        q.bi.len() <= usize::MAX,
        x0_fits_s(q, x0, cfg, prior),
        cfg.feasibility_tol >= 0real,
        cfg.optimality_tol >= 0real,
        prepare_s(q.h) == Some(pre),
        roots_exist(),
    ensures
        ({
            let ctx = context_s(q, cfg, pre.0, pre.1);
            let start = start_s(q, x0, cfg, prior).0;
            let out = active_set_s(q, x0, cfg, prior);
            &&& iterates(q, x0, cfg, prior) ==> feasible_s(q, start, cfg) && run_ok(
                ctx,
                start,
                out,
            )
            &&& out.sol.status == QpStatus::Optimal ==> {
                &&& iterates(q, x0, cfg, prior)
                &&& forall|k: int|
                    0 <= k < out.warm.working_set.len() ==> row_dot_s(
                        q.ai,
                        #[trigger] out.warm.working_set[k] as int,
                        out.sol.x,
                    ) >= q.bi[out.warm.working_set[k] as int] - slackness_s(cfg)
                &&& complementary(q, out.sol.x, out.sol.lambda_iq, slackness_s(cfg))
            }
        }),
{
    let ctx = context_s(q, cfg, pre.0, pre.1);
    let (x, seed) = start_s(q, x0, cfg, prior);
    law_prepared(q.h, pre);
    law_active_set_exit(q, x0, cfg, prior);
    lemma_start(q, x0, cfg, prior);
    lemma_active_at(q, x, q.bi.len(), cfg);
    lemma_lit_pos(1, -12);
    if feasible_s(q, x, cfg) {
        match eq_factor_s(q, ctx.chol, q.be.len()) {
            None => {},
            Some(f) => {
                let rows = match seed {
                    Some(rows) => rows,
                    None => active_at_s(q, x, q.bi.len(), cfg),
                };
                lemma_eq_exact(q, ctx.chol, ctx.h_it, q.be.len());
                lemma_seeded(q, ctx.chol, f, rows, rows.len(), x);
                lemma_seeded_exact(q, ctx.chol, ctx.h_it, f, rows, rows.len());
                let (fac, ws) = seeded_s(q, ctx.chol, f, rows, rows.len());
                let t = cfg.feasibility_tol;
                assert(((0int + 1) as real) * t == t) by {
                    assert(1real * t == t) by (nonlinear_arith);
                }
                assert forall|i: int| 0 <= i < q.bi.len() implies #[trigger] row_dot_s(q.ai, i, x)
                    <= q.bi[i] + slack_s(cfg, 0) by {
                    assert(!iq_off_s(q, x, i, cfg));
                }
                lemma_start_rows(q, x0, cfg, prior, rows);
                lemma_seed_kept(ctx, f, x, rows, rows.len());
                law_run(ctx, AsState { x, fac, ws }, 0);
                let out = active_set_s(q, x0, cfg, prior);
                if out.sol.status == QpStatus::Optimal {
                    lemma_complementary(q, cfg, out);
                }
            },
        }
    }
}

/// With a tight working set and no multiplier outside it, complementary
/// slackness holds.
proof fn lemma_complementary(q: Qp<real>, cfg: QpConfig<real>, out: AsOut<real>)
    requires
        q.bi.len() <= usize::MAX,
        exit_ok(q, cfg, out),
        tight_within(q, out.warm.working_set, out.sol.x, slackness_s(cfg)),
    ensures
        complementary(q, out.sol.x, out.sol.lambda_iq, slackness_s(cfg)),
{
    let (ws, li) = (out.warm.working_set, out.sol.lambda_iq);
    assert forall|i: int| 0 <= i < q.bi.len() implies #[trigger] li[i] == 0real || row_dot_s(
        q.ai,
        i,
        out.sol.x,
    ) >= q.bi[i] - slackness_s(cfg) by {
        if ws.contains(i as usize) {
            let k = choose|k: int| 0 <= k < ws.len() && ws[k] == i as usize;
            assert(row_dot_s(q.ai, ws[k] as int, out.sol.x) >= q.bi[ws[k] as int] - slackness_s(
                cfg,
            ));
        } else {
            assert(outside(ws, i));
        }
    }
}

proof fn lemma_amax(a: Seq<real>, n: nat)
    requires
        n <= a.len(),
    ensures
        forall|i: int| 0 <= i < n ==> (#[trigger] a[i]).abs_s() <= amax_upto_s(a, n),
        amax_upto_s(a, n) == 0real || exists|i: int|
            0 <= i < n && (#[trigger] a[i]).abs_s() == amax_upto_s(a, n),
        amax_upto_s(a, n) >= 0real,
    decreases n,
{
    if n > 0 {
        lemma_amax(a, (n - 1) as nat);
        let m = amax_upto_s(a, (n - 1) as nat);
        if a[n - 1].abs_s() > m {
            assert(a[n - 1].abs_s() == amax_upto_s(a, n));
        } else if m > 0real {
            let i = choose|i: int| 0 <= i < n - 1 && (#[trigger] a[i]).abs_s() == m;
            assert(a[i].abs_s() == amax_upto_s(a, n));
        }
    }
}

proof fn lemma_vmin(a: Seq<real>, n: nat)
    requires
        0 < n <= a.len(),
    ensures
        forall|i: int| 0 <= i < n ==> vmin_upto_s(a, n) <= #[trigger] a[i],
        exists|i: int| 0 <= i < n && #[trigger] a[i] == vmin_upto_s(a, n),
    decreases n,
{
    if n == 1 {
        assert(a[0] == vmin_upto_s(a, n));
    } else {
        lemma_vmin(a, (n - 1) as nat);
        let m = vmin_upto_s(a, (n - 1) as nat);
        let i = choose|i: int| 0 <= i < n - 1 && #[trigger] a[i] == m;
        if a[n - 1] < m {
            assert(a[n - 1] == vmin_upto_s(a, n));
        } else {
            assert(a[i] == vmin_upto_s(a, n));
        }
    }
}

/// The pivots `i` and `j` of a factor spread by four decades.
pub open spec fn spread(l: Mat<real>, i: int, j: int) -> bool {
    l.at(i, i) <= lit_s::<real>(1, -4) * l.at(j, j)
}

/// When the Hessian is ridged, and by how much. It is not where it has a
/// Cholesky factor whose pivots do not spread by four decades; it is, by a
/// millionth of its largest diagonal entry (but of no less than `1e-12`), where
/// it has none or the pivots do.
pub proof fn law_ridge(h: Mat<real>, pre: (Mat<real>, real))
    requires
        h.shaped(h.nrows(), h.nrows()),
        prepare_s(h) == Some(pre),
    ensures
        pre.1 == 0real ==> is_cholesky(pre.0, h) && forall|i: int, j: int|
            0 <= i < h.nrows() && 0 <= j < h.nrows() ==> !#[trigger] spread(pre.0, i, j),
        pre.1 != 0real ==> {
            &&& pre.1 > 0real
            &&& is_cholesky(pre.0, shift_diag_s(h, pre.1))
            &&& (real::cholesky_s(h) matches Some(l) ==> exists|i: int, j: int|
                0 <= i < h.nrows() && 0 <= j < h.nrows() && #[trigger] spread(l, i, j))
            &&& forall|i: int|
                0 <= i < h.nrows() ==> lit_s::<real>(1, -6) * (#[trigger] h.at(i, i)).abs_s() <= pre.1
            &&& pre.1 == lit_s::<real>(1, -6) * lit_s::<real>(1, -12) || exists|i: int|
                0 <= i < h.nrows() && pre.1 == lit_s::<real>(1, -6) * (#[trigger] h.at(i, i)).abs_s()
        },
{
    law_prepared(h, pre);
    let n = h.nrows();
    let plain = real::cholesky_s(h);
    if plain is Some {
        let l = plain->Some_0;
        assert(is_cholesky(l, h));
        let d = diag_s(l);
        if n > 0 {
            lemma_amax(d, n);
            lemma_vmin(vabs_s(d), n);
            let (lo, hi) = (vmin_s(vabs_s(d)), amax_s(d));
            lemma_lit_pos(1, -4);
            let e = lit_s::<real>(1, -4);
            assert forall|i: int| 0 <= i < n implies #[trigger] d[i] == l.at(i, i) && d[i]
                > 0real by {
                assert(l.at(i, i) > 0real);
            }
            if !ill_s(l) {
                assert forall|i: int, j: int| 0 <= i < n && 0 <= j < n implies !#[trigger] spread(
                    l,
                    i,
                    j,
                ) by {
                    let (a, b) = (d[i], d[j]);
                    assert(vabs_s(d)[i] >= lo);
                    assert(d[j].abs_s() <= hi);
                    assert(e * b <= e * hi) by (nonlinear_arith)
                        requires
                            b <= hi,
                            e > 0real,
                    ;
                }
            } else {
                let i = choose|i: int| 0 <= i < n && #[trigger] vabs_s(d)[i] == lo;
                assert(d[i] > 0real);
                assert(hi > 0real) by {
                    assert(d[0] > 0real && d[0].abs_s() <= hi);
                }
                let j = choose|j: int| 0 <= j < n && (#[trigger] d[j]).abs_s() == hi;
                assert(spread(l, i, j));
            }
        } else {
            assert(!ill_s(l));
        }
    }
    let dh = diag_s(h);
    lemma_amax(dh, dh.len());
    lemma_lit_pos(1, -6);
    lemma_lit_pos(1, -12);
    let (e, m) = (lit_s::<real>(1, -6), amax_s(dh));
    let top = m.max_s(lit_s::<real>(1, -12));
    assert(e * top > 0real) by (nonlinear_arith)
        requires
            e > 0real,
            top > 0real,
    ;
    assert forall|i: int| 0 <= i < n implies e * (#[trigger] h.at(i, i)).abs_s() <= ridge_s(h) by {
        let (a, b) = (dh[i].abs_s(), m.max_s(lit_s::<real>(1, -12)));
        assert(dh[i] == h.at(i, i));
        assert(e * a <= e * b) by (nonlinear_arith)
            requires
                a <= b,
                e > 0real,
        ;
    }
    if m > lit_s::<real>(1, -12) {
        let i = choose|i: int| 0 <= i < n && (#[trigger] dh[i]).abs_s() == m;
        assert(h.at(i, i).abs_s() == m);
    }
}

/// A Hessian with a Cholesky factor whose pivots do not spread by four decades is
/// used as it is.
pub proof fn law_not_ridged(h: Mat<real>)
    requires
        h.shaped(h.nrows(), h.nrows()),
        real::cholesky_s(h) matches Some(l) && forall|i: int, j: int|
            0 <= i < h.nrows() && 0 <= j < h.nrows() ==> !#[trigger] spread(l, i, j),
    ensures
        prepare_s(h) == Some((real::cholesky_s(h)->Some_0, 0real)),
{
    let n = h.nrows();
    let l = real::cholesky_s(h)->Some_0;
    assert(is_cholesky(l, h));
    if n > 0 {
        let d = diag_s(l);
        lemma_amax(d, n);
        lemma_vmin(vabs_s(d), n);
        let (lo, hi) = (vmin_s(vabs_s(d)), amax_s(d));
        assert forall|i: int| 0 <= i < n implies #[trigger] d[i] == l.at(i, i) && d[i] > 0real by {
            assert(l.at(i, i) > 0real);
        }
        let i = choose|i: int| 0 <= i < n && #[trigger] vabs_s(d)[i] == lo;
        assert(d[i] > 0real);
        assert(hi > 0real) by {
            assert(d[0] > 0real && d[0].abs_s() <= hi);
        }
        let j = choose|j: int| 0 <= j < n && (#[trigger] d[j]).abs_s() == hi;
        assert(d[j] > 0real);
        assert(!spread(l, i, j));
    }
}

/// The answer of a ridged problem is polished wherever it can be: where the
/// optimality system of the stated problem on the working set has exactly one
/// solution `z`, and that keeps the other inequalities and the signs up to ten
/// tolerances, the polish takes it; where it does not keep them, the polish
/// leaves the answer.
pub proof fn law_polish_accepts(
    q: Qp<real>,
    x: Seq<real>,
    le: Seq<real>,
    li: Seq<real>,
    ws: Seq<usize>,
    cfg: QpConfig<real>,
    z: Seq<real>,
)
    requires
        q.wf(),
        z.len() == q.n() + q.be.len() + ws.len(),
        mvec_s(kkt_s(q, ws), z) == kkt_rhs_s(q, ws),
        is_regular(kkt_s(q, ws)),
    ensures
        ({
            let new = slice_s(z, 0, q.n());
            let fine = (forall|i: int|
                0 <= i < q.bi.len() && !ws.contains(i as usize) ==> #[trigger] row_dot_s(
                    q.ai,
                    i,
                    new,
                ) <= q.bi[i] + 10real * cfg.feasibility_tol) && forall|k: int|
                0 <= k < ws.len() ==> #[trigger] z[q.n() + q.be.len() + k] >= -(10real
                    * cfg.optimality_tol);
            let r = polish_s(q, x, le, li, ws, cfg);
            &&& fine ==> r.0 == new && r.1 == slice_s(z, q.n(), q.be.len())
            &&& !fine ==> r == (x, le, li)
        }),
{
    let a = kkt_s(q, ws);
    let b = kkt_rhs_s(q, ws);
    assert(b.len() == z.len());
    law_regular_solvable(a, as_col_s(b));
    let y = lu_vec_s(a, b)->Some_0;
    lemma_lu_vec(a, b, y);
    lemma_mvec_add(a, y, z);
    let d = vsub_s(y, z);
    assert(mvec_s(a, d) =~= vzeros_s::<real>(a.nrows()));
    assert(d == vzeros_s::<real>(a.ncols()));
    assert forall|i: int| 0 <= i < z.len() implies y[i] == z[i] by {
        assert(d[i] == 0real);
    }
    assert(y =~= z);
    lemma_ten();
    let new = slice_s(z, 0, q.n());
    let t = cfg.optimality_tol;
    assert((-10real) * t == -(10real * t)) by (nonlinear_arith);
    if polish_ok_s(q, z, ws, cfg) {
        assert forall|i: int| 0 <= i < q.bi.len() && !ws.contains(i as usize) implies #[trigger]
        row_dot_s(q.ai, i, new) <= q.bi[i] + 10real * cfg.feasibility_tol by {
            assert(polish_keeps_s(q, z, i, cfg));
        }
        assert forall|k: int| 0 <= k < ws.len() implies #[trigger] z[q.n() + q.be.len() + k] >= -(
        10real * cfg.optimality_tol) by {
            assert(polish_dual_s(q, z, k, cfg));
        }
    } else if (forall|i: int|
        0 <= i < q.bi.len() && !ws.contains(i as usize) ==> #[trigger] row_dot_s(q.ai, i, new)
            <= q.bi[i] + 10real * cfg.feasibility_tol) && forall|k: int|
        0 <= k < ws.len() ==> #[trigger] z[q.n() + q.be.len() + k] >= -(10real
            * cfg.optimality_tol) {
        assert forall|i: int| 0 <= i < q.bi.len() && !ws.contains(i as usize) implies #[trigger]
        polish_keeps_s(q, z, i, cfg) by {
            assert(row_dot_s(q.ai, i, new) <= q.bi[i] + 10real * cfg.feasibility_tol);
        }
        assert forall|k: int| 0 <= k < ws.len() implies #[trigger] polish_dual_s(q, z, k, cfg) by {
            assert(z[q.n() + q.be.len() + k] >= -(10real * cfg.optimality_tol));
        }
    }
}

} // verus!
