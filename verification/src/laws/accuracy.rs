//! How accurate an optimal answer of each solver is, and that the choice of the
//! solver does not change the answer.

use vstd::prelude::*;

use crate::active_set::{active_set_s, context_s};
use crate::active_start::{eq_tol_s, feasible_s, h_it_s, prepare_s, start_s, x0_fits_s};
use crate::admm::{admm_ctx_s, admm_s, residuals_s, AdmmState};
use crate::dense::{
    dot_s, dot_upto_s, mvec_s, norm_s, norm_sq_s, peak_s, peak_upto_s, stack_rows_s, transpose_s,
    vadd_s, vneg_s, vscale_s, vsub_s, vzeros_s, Mat,
};
use crate::exact::{lemma_dot_concat, lemma_mvec_add, lemma_norm_sq_nonneg, lemma_shift_mvec};
use crate::ipm::{ipm_done_s, ipm_run_s, ipm_start_s, r_eq_s, r_iq_s, r_stat_s, IpmState};
use crate::laws::active_set::{law_active_set, law_prepared, near_kkt, polished, run_ok, slack_s};
use crate::laws::admm::{law_admm, lemma_peak, optimal_at};
use crate::laws::agree::{
    bounded, distance_s, law_near_optimal_agree, near_optimal, room_s, sized, strongly_convex,
};
use crate::laws::ipm::{all_positive, law_ipm};
use crate::laws::kkt::{at_least, lagrangian_s, within_by};
use crate::laws::rotation::lemma_over;
use crate::laws::tight::slackness_s;
use crate::laws::working_set::law_active_set_exit;
use crate::qp::{row_dot_s, solve_qp_s, Qp, QpArgs, QpConfig, QpSolver, QpStatus, Sol, Warm};
use crate::scalar::{is_root, roots_exist, Arith};

verus! {

/// The sum of the magnitudes of the first `n` entries.
pub open spec fn abs_sum_s(a: Seq<real>, n: nat) -> real
    decreases n,
{
    if n == 0 {
        0real
    } else {
        abs_sum_s(a, (n - 1) as nat) + a[n - 1].abs_s()
    }
}

/// No entry exceeds the norm.
proof fn lemma_entry(v: Seq<real>, i: int)
    requires
        roots_exist(),
        0 <= i < v.len(),
    ensures
        -norm_s(v) <= v[i] <= norm_s(v),
{
    let (s, r, t) = (norm_sq_s(v), norm_s(v), v[i]);
    lemma_norm_sq_nonneg(v, v.len());
    lemma_square(v, v.len(), i);
    assert(is_root(s, r));
    assert(-r <= t <= r) by (nonlinear_arith)
        requires
            t * t <= r * r,
            r >= 0real,
    ;
}

proof fn lemma_square(v: Seq<real>, n: nat, i: int)
    requires
        0 <= i < n,
    ensures
        v[i] * v[i] <= dot_upto_s(v, v, n),
    decreases n,
{
    lemma_norm_sq_nonneg(v, (n - 1) as nat);
    let t = v[n - 1];
    assert(t * t >= 0real) by (nonlinear_arith);
    if i < n - 1 {
        lemma_square(v, (n - 1) as nat, i);
    }
}

/// The product with a vector of entries of at most `t`.
proof fn lemma_small_dot(a: Seq<real>, p: Seq<real>, n: nat, t: real)
    requires
        n <= p.len(),
        bounded(p, t),
        t >= 0real,
    ensures
        -(abs_sum_s(a, n) * t) <= dot_upto_s(a, p, n) <= abs_sum_s(a, n) * t,
    decreases n,
{
    if n == 0 {
        assert(0real * t == 0real) by (nonlinear_arith);
    } else {
        lemma_small_dot(a, p, (n - 1) as nat, t);
        let (x, y, s) = (a[n - 1], p[n - 1], abs_sum_s(a, (n - 1) as nat));
        let g = x.abs_s();
        assert(-t <= p[n - 1] <= t);
        assert(-(g * t) <= x * y <= g * t) by (nonlinear_arith)
            requires
                -t <= y <= t,
                g >= 0real,
                -g <= x <= g,
        ;
        assert((s + g) * t == s * t + g * t) by (nonlinear_arith);
    }
}

/// What the active-set method adds to the diagonal of the Hessian before it
/// factors it: nothing where the Hessian is well conditioned.
pub open spec fn added_s(h: Mat<real>) -> real {
    match prepare_s(h) {
        Some(pre) => pre.1,
        None => 0real,
    }
}

/// What an error `e` has to cover for an optimal answer `x` of the active-set
/// method on the problem `q`: the residual of stationarity behind a last step
/// shorter than the tolerance, the equalities of the start, one feasibility
/// tolerance per iteration, the signs, and the tightness of the working set.
/// Where the Hessian was ridged, also the pull of the ridge on the answer, and
/// the tolerances of the polish.
pub open spec fn covers_active_set(
    q: Qp<real>,
    cfg: QpConfig<real>,
    x: Seq<real>,
    e: real,
) -> bool {
    &&& forall|i: int|
        0 <= i < q.n() ==> #[trigger] abs_sum_s(q.h.rows[i], q.n()) * cfg.optimality_tol + added_s(
            q.h,
        ) * (cfg.optimality_tol + x[i].abs_s()) <= e
    &&& eq_tol_s(q.be, cfg) <= e
    &&& slack_s(cfg, cfg.max_iters as int + 1) <= e
    &&& cfg.optimality_tol <= e
    &&& slackness_s(cfg) <= e
    &&& added_s(q.h) > 0real ==> 10real * cfg.feasibility_tol <= e && 10real * cfg.optimality_tol
        <= e
}

proof fn lemma_slack_mono(cfg: QpConfig<real>, i: int, j: int)
    requires
        cfg.feasibility_tol >= 0real,
        i <= j,
    ensures
        slack_s(cfg, i) <= slack_s(cfg, j),
{
    let (a, b, t) = ((i + 1) as real, (j + 1) as real, cfg.feasibility_tol);
    assert(a * t <= b * t) by (nonlinear_arith)
        requires
            a <= b,
            t >= 0real,
    ;
}

/// A product of a multiplier and its room, where one of the two is small.
proof fn lemma_small_product(l: real, s: real, e: real, m: real)
    requires
        -e <= l <= m,
        -e <= s,
        l == 0real || s <= e,
        e >= 0real,
        m >= 0real,
    ensures
        l * s <= e * (1real + m + e),
{
    let w = 1real + m + e;
    assert(e * w == e + e * m + e * e) by (nonlinear_arith)
        requires
            w == 1real + m + e,
    ;
    assert(e * m >= 0real && e * e >= 0real) by (nonlinear_arith)
        requires
            e >= 0real,
            m >= 0real,
    ;
    if l == 0real {
        assert(l * s == 0real) by (nonlinear_arith)
            requires
                l == 0real,
        ;
    } else if l >= 0real {
        assert(l * s <= m * e) by (nonlinear_arith)
            requires
                0real <= l <= m,
                s <= e,
                e >= 0real,
        ;
        assert(m * e == e * m) by (nonlinear_arith);
    } else {
        assert(l * s <= e * e) by (nonlinear_arith)
            requires
                -e <= l <= 0real,
                -e <= s <= e,
        ;
    }
}

/// The gradient of the Lagrangian at an answer for the Hessian `h + r I`, up to
/// a step `p`.
proof fn lemma_gradient(
    q: Qp<real>,
    r: real,
    x: Seq<real>,
    le: Seq<real>,
    li: Seq<real>,
    p: Seq<real>,
    t: real,
    i: int,
)
    requires
        q.wf(),
        r >= 0real,
        x.len() == q.n(),
        p.len() == q.n(),
        bounded(p, t),
        t >= 0real,
        lagrangian_s(q, h_it_s(q.h, r), vadd_s(x, p), le, li) == vzeros_s::<real>(q.n()),
        0 <= i < q.n(),
    ensures
        lagrangian_s(q, q.h, x, le, li)[i].abs_s() <= abs_sum_s(q.h.rows[i], q.n()) * t + r * (t
            + x[i].abs_s()),
{
    let n = q.n();
    let y = vadd_s(x, p);
    lemma_shift_mvec(q.h, r, y);
    lemma_mvec_add(q.h, x, p);
    lemma_small_dot(q.h.rows[i], p, n, t);
    let (g, u, v) = (lagrangian_s(q, q.h, x, le, li)[i], x[i], p[i]);
    assert(-t <= p[i] <= t);
    assert(lagrangian_s(q, h_it_s(q.h, r), y, le, li)[i] == vzeros_s::<real>(n)[i]);
    let (w, k) = (u.abs_s(), r * (u + v));
    assert(-(r * (t + w)) <= k <= r * (t + w)) by (nonlinear_arith)
        requires
            k == r * (u + v),
            -t <= v <= t,
            -w <= u <= w,
            r >= 0real,
    ;
    if r == 0real {
        assert(k == 0real) by (nonlinear_arith)
            requires
                k == r * (u + v),
                r == 0real,
        ;
        assert(g == -mvec_s(q.h, p)[i]);
    } else {
        assert(vscale_s(r, y)[i] == k);
        assert(g == -mvec_s(q.h, p)[i] - k);
    }
}

/// An optimal answer of the active-set method meets the optimality conditions of
/// the stated problem up to every error that covers its tolerances, and, where
/// the Hessian was ridged, the ridge.
pub proof fn law_active_set_accuracy(
    q: Qp<real>,
    x0: Option<Seq<real>>,
    cfg: QpConfig<real>,
    prior: Option<Warm<real>>,
    e: real,
    m: real,
)
    requires
        q.wf(),
        q.bi.len() <= usize::MAX,
        x0_fits_s(q, x0, cfg, prior),
        cfg.feasibility_tol >= 0real,
        cfg.optimality_tol >= 0real,
        roots_exist(),
        active_set_s(q, x0, cfg, prior).sol.status == QpStatus::Optimal,
        m >= 0real,
        bounded(active_set_s(q, x0, cfg, prior).sol.lambda_iq, m),
        covers_active_set(q, cfg, active_set_s(q, x0, cfg, prior).sol.x, e),
    ensures
        ({
            let sol = active_set_s(q, x0, cfg, prior).sol;
            near_optimal(q, sol.x, sol.lambda_eq, sol.lambda_iq, e, m)
        }),
{
    let out = active_set_s(q, x0, cfg, prior);
    let (x, le, li) = (out.sol.x, out.sol.lambda_eq, out.sol.lambda_iq);
    assert(prepare_s(q.h) is Some);
    let pre = prepare_s(q.h)->Some_0;
    let ctx = context_s(q, cfg, pre.0, pre.1);
    let start = start_s(q, x0, cfg, prior).0;
    law_prepared(q.h, pre);
    law_active_set(q, x0, cfg, prior, pre);
    law_active_set_exit(q, x0, cfg, prior);
    assert(run_ok(ctx, start, out));
    let room = room_s(q, x);
    if ctx.ridged && polished(q, cfg, x, le, li, out.warm.working_set) {
        lemma_polished_accuracy(q, cfg, x, le, li, out.warm.working_set, e);
    } else {
        let p = choose|p: Seq<real>| near_kkt(q, ctx.h_it, x, le, li, p, cfg.optimality_tol);
        assert(near_kkt(q, ctx.h_it, x, le, li, p, cfg.optimality_tol));
        lemma_slack_mono(cfg, out.sol.iterations as int + 1, cfg.max_iters as int + 1);
        lemma_iterated_accuracy(q, cfg, start, x, le, li, p, pre.1, e);
    }
    assert forall|i: int| 0 <= i < q.bi.len() implies #[trigger] li[i] * room_s(q, x)[i] <= e * (
    1real + m + e) by {
        assert(li[i] >= -e && li[i] <= m);
        assert(room[i] >= -e);
        assert(li[i] == 0real || row_dot_s(q.ai, i, x) >= q.bi[i] - slackness_s(cfg));
        lemma_small_product(li[i], room[i], e, m);
    }
}

/// The linear conditions at a polished answer.
proof fn lemma_polished_accuracy(
    q: Qp<real>,
    cfg: QpConfig<real>,
    x: Seq<real>,
    le: Seq<real>,
    li: Seq<real>,
    ws: Seq<usize>,
    e: real,
)
    requires
        q.wf(),
        x.len() == q.n(),
        polished(q, cfg, x, le, li, ws),
        10real * cfg.feasibility_tol <= e,
        10real * cfg.optimality_tol <= e,
        e >= 0real,
    ensures
        bounded(lagrangian_s(q, q.h, x, le, li), e),
        bounded(vsub_s(mvec_s(q.ae, x), q.be), e),
        at_least(room_s(q, x), -e),
        at_least(li, -e),
{
    let (lag, gap, room) = (
        lagrangian_s(q, q.h, x, le, li),
        vsub_s(mvec_s(q.ae, x), q.be),
        room_s(q, x),
    );
    assert forall|i: int| 0 <= i < lag.len() implies -e <= #[trigger] lag[i] <= e by {
        assert(lag[i] == vzeros_s::<real>(q.n())[i]);
    }
    assert forall|i: int| 0 <= i < gap.len() implies -e <= #[trigger] gap[i] <= e by {}
    assert forall|i: int| 0 <= i < room.len() implies #[trigger] room[i] >= -e by {
        assert(row_dot_s(q.ai, i, x) <= q.bi[i] + 10real * cfg.feasibility_tol);
    }
    assert forall|i: int| 0 <= i < li.len() implies #[trigger] li[i] >= -e by {}
}

/// The linear conditions at an answer that the iterations ended with.
proof fn lemma_iterated_accuracy(
    q: Qp<real>,
    cfg: QpConfig<real>,
    start: Seq<real>,
    x: Seq<real>,
    le: Seq<real>,
    li: Seq<real>,
    p: Seq<real>,
    r: real,
    e: real,
)
    requires
        q.wf(),
        roots_exist(),
        cfg.optimality_tol >= 0real,
        x.len() == q.n(),
        r >= 0real,
        r == added_s(q.h),
        near_kkt(q, h_it_s(q.h, r), x, le, li, p, cfg.optimality_tol),
        mvec_s(q.ae, x) == mvec_s(q.ae, start),
        feasible_s(q, start, cfg),
        within_by(q, x, slack_s(cfg, cfg.max_iters as int + 1)),
        covers_active_set(q, cfg, x, e),
    ensures
        bounded(lagrangian_s(q, q.h, x, le, li), e),
        bounded(vsub_s(mvec_s(q.ae, x), q.be), e),
        at_least(room_s(q, x), -e),
        at_least(li, -e),
{
    let t = cfg.optimality_tol;
    let (lag, gap, room) = (
        lagrangian_s(q, q.h, x, le, li),
        vsub_s(mvec_s(q.ae, x), q.be),
        room_s(q, x),
    );
    assert forall|i: int| 0 <= i < p.len() implies -t <= #[trigger] p[i] <= t by {
        lemma_entry(p, i);
    }
    assert forall|i: int| 0 <= i < lag.len() implies -e <= #[trigger] lag[i] <= e by {
        lemma_gradient(q, r, x, le, li, p, t, i);
        assert(abs_sum_s(q.h.rows[i], q.n()) * t + r * (t + x[i].abs_s()) <= e);
    }
    assert forall|i: int| 0 <= i < gap.len() implies -e <= #[trigger] gap[i] <= e by {
        lemma_entry(gap, i);
    }
    assert forall|i: int| 0 <= i < room.len() implies #[trigger] room[i] >= -e by {
        assert(row_dot_s(q.ai, i, x) <= q.bi[i] + slack_s(cfg, cfg.max_iters as int + 1));
    }
    assert forall|i: int| 0 <= i < li.len() implies #[trigger] li[i] >= -e by {}
}

/// What an error has to cover for an optimal answer of the interior-point
/// method: its scaled tolerances, and the sum of the complementarity products.
pub open spec fn covers_ipm(q: Qp<real>, cfg: QpConfig<real>, e: real) -> bool {
    &&& cfg.optimality_tol * (1real + norm_s(q.c)) <= e
    &&& cfg.feasibility_tol * (1real + norm_s(q.c)) <= e
    &&& (q.bi.len() as real) * cfg.optimality_tol <= e
    &&& e >= 0real
}

/// One of several positive products is at most their sum.
proof fn lemma_term(a: Seq<real>, b: Seq<real>, n: nat, i: int)
    requires
        0 <= i < n,
        n <= a.len(),
        n <= b.len(),
        all_positive(a),
        all_positive(b),
    ensures
        a[i] * b[i] <= dot_upto_s(a, b, n),
    decreases n,
{
    lemma_sum_positive(a, b, (n - 1) as nat);
    let (x, y) = (a[n - 1], b[n - 1]);
    assert(x > 0real && y > 0real);
    assert(x * y >= 0real) by (nonlinear_arith)
        requires
            x > 0real,
            y > 0real,
    ;
    if i < n - 1 {
        lemma_term(a, b, (n - 1) as nat, i);
    }
}

proof fn lemma_sum_positive(a: Seq<real>, b: Seq<real>, n: nat)
    requires
        n <= a.len(),
        n <= b.len(),
        all_positive(a),
        all_positive(b),
    ensures
        dot_upto_s(a, b, n) >= 0real,
    decreases n,
{
    if n > 0 {
        lemma_sum_positive(a, b, (n - 1) as nat);
        let (x, y) = (a[n - 1], b[n - 1]);
        assert(x > 0real && y > 0real);
        assert(x * y >= 0real) by (nonlinear_arith)
            requires
                x > 0real,
                y > 0real,
        ;
    }
}

/// An optimal answer of the interior-point method meets the optimality
/// conditions up to every error that covers its tolerances.
pub proof fn law_ipm_accuracy(q: Qp<real>, cfg: QpConfig<real>, e: real, m: real)
    requires
        q.wf(),
        q.bi.len() <= usize::MAX,
        roots_exist(),
        ipm_run_s(q, cfg, ipm_start_s(q), 0).status == QpStatus::Optimal,
        m >= 0real,
        bounded(ipm_run_s(q, cfg, ipm_start_s(q), 0).lambda_iq, m),
        covers_ipm(q, cfg, e),
    ensures
        ({
            let sol = ipm_run_s(q, cfg, ipm_start_s(q), 0);
            near_optimal(q, sol.x, sol.lambda_eq, sol.lambda_iq, e, m)
        }),
{
    let sol = ipm_run_s(q, cfg, ipm_start_s(q), 0);
    let (x, le, li) = (sol.x, sol.lambda_eq, sol.lambda_iq);
    law_ipm(q, cfg);
    let s = choose|s: Seq<real>|
        all_positive(s) && s.len() == q.bi.len() && ipm_done_s(
            q,
            IpmState { x: sol.x, s, z: sol.lambda_iq, y: sol.lambda_eq },
            cfg,
        );
    let st = IpmState { x, s, z: li, y: le };
    let lag = lagrangian_s(q, q.h, x, le, li);
    assert(lag == r_stat_s(q, st));
    assert forall|i: int| 0 <= i < lag.len() implies -e <= #[trigger] lag[i] <= e by {
        lemma_entry(lag, i);
    }
    let gap = vsub_s(mvec_s(q.ae, x), q.be);
    assert(gap == r_eq_s(q, st));
    assert forall|i: int| 0 <= i < gap.len() implies -e <= #[trigger] gap[i] <= e by {
        lemma_entry(gap, i);
    }
    let off = r_iq_s(q, st);
    let room = room_s(q, x);
    let k = q.bi.len();
    assert forall|i: int| 0 <= i < k implies room[i] == s[i] - off[i] && -e <= #[trigger] off[i]
        <= e by {
        lemma_entry(off, i);
    }
    assert forall|i: int| 0 <= i < room.len() implies #[trigger] room[i] >= -e by {
        assert(s[i] > 0real);
        assert(off[i] <= e);
    }
    assert forall|i: int| 0 <= i < li.len() implies #[trigger] li[i] >= -e by {
        assert(li[i] > 0real);
    }
    assert forall|i: int| 0 <= i < k implies #[trigger] li[i] * room_s(q, x)[i] <= e * (1real + m
        + e) by {
        let (l, a, o) = (li[i], s[i], off[i]);
        assert(li[i] > 0real && li[i] <= m);
        assert(-e <= off[i]);
        lemma_term(s, li, k, i);
        let (total, kk, tol) = (dot_s(s, li), k as real, cfg.optimality_tol);
        lemma_over(total, kk);
        let mean = total / kk;
        assert(real::nat_s(s.len() as usize) == kk);
        assert(mean < tol);
        assert(total <= kk * tol) by (nonlinear_arith)
            requires
                kk * mean == total,
                mean < tol,
                kk > 0real,
        ;
        assert(l * (a - o) == a * l - l * o) by (nonlinear_arith);
        assert(-(l * o) <= m * e) by (nonlinear_arith)
            requires
                0real < l <= m,
                o >= -e,
                e >= 0real,
        ;
        let w = 1real + m + e;
        assert(e * w == e + m * e + e * e) by (nonlinear_arith)
            requires
                w == 1real + m + e,
        ;
        assert(e * e >= 0real) by (nonlinear_arith);
    }
}

/// What an error has to cover for an optimal answer of the splitting method: its
/// scaled tolerances at the answer.
pub open spec fn covers_admm(q: Qp<real>, cfg: QpConfig<real>, sol: Sol<real>, e: real) -> bool {
    let a = stack_rows_s(q.ae, q.ai);
    let y = sol.lambda_eq + sol.lambda_iq;
    &&& 2real * (cfg.feasibility_tol * (1real + peak_s(mvec_s(a, sol.x)))) <= e
    &&& cfg.optimality_tol * (1real + peak_s(mvec_s(q.h, sol.x)).max_s(
        peak_s(mvec_s(transpose_s(a), y)),
    ).max_s(peak_s(q.c))) <= e
    &&& 0real <= cfg.feasibility_tol <= 1real / 2real
    &&& e >= 0real
}

proof fn lemma_peak_upto(a: Seq<real>, n: nat, b: real)
    requires
        n <= a.len(),
        bounded(a, b),
        b >= 0real,
    ensures
        0real <= peak_upto_s(a, n) <= b,
    decreases n,
{
    if n > 0 {
        lemma_peak_upto(a, (n - 1) as nat, b);
        assert(-b <= a[n - 1] <= b);
    }
}

/// The transpose of stacked rows acts block by block.
pub proof fn lemma_stack_transpose(a: Mat<real>, b: Mat<real>, u: Seq<real>, v: Seq<real>)
    requires
        a.wf(),
        b.shaped(b.nrows(), a.ncols()),
        u.len() == a.nrows(),
        v.len() == b.nrows(),
    ensures
        mvec_s(transpose_s(stack_rows_s(a, b)), u + v) == vadd_s(
            mvec_s(transpose_s(a), u),
            mvec_s(transpose_s(b), v),
        ),
{
    let s = stack_rows_s(a, b);
    let (l, r) = (
        mvec_s(transpose_s(s), u + v),
        vadd_s(mvec_s(transpose_s(a), u), mvec_s(transpose_s(b), v)),
    );
    assert forall|c: int| 0 <= c < a.ncols() implies l[c] == r[c] by {
        let (ra, rb) = (transpose_s(a).rows[c], transpose_s(b).rows[c]);
        assert(transpose_s(s).rows[c] =~= ra + rb);
        lemma_dot_concat(ra, rb, u, v);
    }
    assert(l =~= r);
}

/// An optimal answer of the splitting method meets the optimality conditions up
/// to every error that covers its tolerances.
pub proof fn law_admm_accuracy(q: Qp<real>, cfg: QpConfig<real>, e: real, m: real)
    requires
        q.wf(),
        admm_s(q, cfg).status == QpStatus::Optimal,
        m >= 0real,
        bounded(admm_s(q, cfg).lambda_iq, m),
        covers_admm(q, cfg, admm_s(q, cfg), e),
    ensures
        ({
            let sol = admm_s(q, cfg);
            near_optimal(q, sol.x, sol.lambda_eq, sol.lambda_iq, e, m)
        }),
{
    let sol = admm_s(q, cfg);
    let (x, le, li) = (sol.x, sol.lambda_eq, sol.lambda_iq);
    law_admm(q, cfg);
    let lag = lagrangian_s(q, q.h, x, le, li);
    let gap = vsub_s(mvec_s(q.ae, x), q.be);
    let room = room_s(q, x);
    if q.be.len() + q.bi.len() == 0 {
        assert forall|i: int| 0 <= i < lag.len() implies -e <= #[trigger] lag[i] <= e by {
            assert(mvec_s(q.h, x)[i] == vneg_s(q.c)[i]);
            assert(mvec_s(transpose_s(q.ae), le)[i] == 0real);
            assert(mvec_s(transpose_s(q.ai), li)[i] == 0real);
        }
    } else {
        let p = admm_ctx_s(q, cfg);
        let st = choose|st: AdmmState<real>| optimal_at(p, sol, st);
        assert(optimal_at(p, sol, st));
        let r = residuals_s(p, st);
        let y = le + li;
        lemma_admm_primal(q, cfg, sol, st, e);
        lemma_stack_transpose(q.ae, q.ai, le, li);
        let full = vadd_s(vadd_s(mvec_s(q.h, x), q.c), mvec_s(p.at, y));
        assert(lag =~= full);
        assert forall|i: int| 0 <= i < lag.len() implies -e <= #[trigger] lag[i] <= e by {
            lemma_peak(full, full.len(), i);
        }
        assert forall|i: int| 0 <= i < gap.len() implies -e <= #[trigger] gap[i] <= e by {
            assert((mvec_s(q.ae, sol.x)[i] - q.be[i]).abs_s() <= r.prim);
        }
        assert forall|i: int| 0 <= i < room.len() implies #[trigger] room[i] >= -e by {
            assert(mvec_s(q.ai, sol.x)[i] <= q.bi[i] + r.prim);
        }
        assert forall|i: int| 0 <= i < li.len() implies #[trigger] li[i] >= -e by {
            assert(li[i] >= 0real);
        }
        assert forall|i: int| 0 <= i < q.bi.len() implies #[trigger] li[i] * room_s(q, x)[i] <= e
            * (1real + m + e) by {
            assert(li[i] >= 0real && li[i] <= m);
            assert(room[i] >= -e);
            if li[i] > 0real {
                assert(mvec_s(q.ai, sol.x)[i] >= q.bi[i] - r.prim);
            }
            lemma_small_product(li[i], room[i], e, m);
        }
    }
}

/// The primal residual of an accepted iterate, by the answer alone.
proof fn lemma_admm_primal(
    q: Qp<real>,
    cfg: QpConfig<real>,
    sol: Sol<real>,
    st: AdmmState<real>,
    e: real,
)
    requires
        q.wf(),
        optimal_at(admm_ctx_s(q, cfg), sol, st),
        covers_admm(q, cfg, sol, e),
    ensures
        0real <= residuals_s(admm_ctx_s(q, cfg), st).prim <= e,
{
    let p = admm_ctx_s(q, cfg);
    let r = residuals_s(p, st);
    let ax = mvec_s(p.a, st.x);
    let gap = vsub_s(ax, st.z);
    let (prim, top) = (r.prim, peak_s(ax));
    lemma_peak_nonneg(gap, gap.len());
    lemma_peak_nonneg(ax, ax.len());
    assert forall|i: int| 0 <= i < st.z.len() implies -(top + prim) <= #[trigger] st.z[i] <= top
        + prim by {
        lemma_peak(gap, gap.len(), i);
        lemma_peak(ax, ax.len(), i);
        assert(gap[i] == ax[i] - st.z[i]);
    }
    lemma_peak_upto(st.z, st.z.len(), top + prim);
    let (t, w) = (cfg.feasibility_tol, 1real + top);
    assert(r.scale_p <= w + prim);
    let sc = r.scale_p;
    assert(prim <= 2real * (t * w)) by (nonlinear_arith)
        requires
            prim < t * sc,
            sc <= w + prim,
            0real <= t <= 1real / 2real,
            prim >= 0real,
            w >= 0real,
    ;
}

pub proof fn lemma_peak_nonneg(a: Seq<real>, n: nat)
    ensures
        peak_upto_s(a, n) >= 0real,
    decreases n,
{
    if n > 0 {
        lemma_peak_nonneg(a, (n - 1) as nat);
    }
}

/// What an error has to cover for an optimal answer of the configured solver. Of
/// the conic solver, which stands outside the library, the answer itself has to
/// be that accurate.
pub open spec fn covers(
    q: Qp<real>,
    cfg: QpConfig<real>,
    sol: Sol<real>,
    e: real,
    m: real,
) -> bool {
    match cfg.solver {
        QpSolver::ActiveSet => covers_active_set(q, cfg, sol.x, e) && cfg.feasibility_tol >= 0real
            && cfg.optimality_tol >= 0real,
        QpSolver::Ipm => covers_ipm(q, cfg, e),
        QpSolver::Admm => covers_admm(q, cfg, sol, e),
        QpSolver::Clarabel => near_optimal(q, sol.x, sol.lambda_eq, sol.lambda_iq, e, m),
    }
}

/// An optimal answer of any solver meets the optimality conditions up to every
/// error that covers the solver's tolerances.
pub proof fn law_accuracy(
    args: QpArgs<real>,
    cfg: QpConfig<real>,
    prior: Option<Warm<real>>,
    e: real,
    m: real,
)
    requires
        args.wf(),
        args.x0_ok(cfg, prior),
        args.problem(cfg).bi.len() <= usize::MAX,
        roots_exist(),
        solve_qp_s(args, cfg, prior).0.status == QpStatus::Optimal,
        m >= 0real,
        bounded(solve_qp_s(args, cfg, prior).0.lambda_iq, m),
        covers(args.problem(cfg), cfg, solve_qp_s(args, cfg, prior).0, e, m),
    ensures
        ({
            let sol = solve_qp_s(args, cfg, prior).0;
            near_optimal(args.problem(cfg), sol.x, sol.lambda_eq, sol.lambda_iq, e, m)
        }),
{
    reveal(solve_qp_s);
    let q = args.problem(cfg);
    assert(q.wf());
    match cfg.solver {
        QpSolver::ActiveSet => {
            law_active_set_accuracy(q, args.x0, cfg, prior, e, m);
        },
        QpSolver::Ipm => {
            law_ipm_accuracy(q, cfg, e, m);
        },
        QpSolver::Admm => {
            law_admm_accuracy(q, cfg, e, m);
        },
        QpSolver::Clarabel => {},
    }
}

/// The choice of the solver does not change the answer: two solves of one
/// strongly convex problem, each with its own solver, tolerances and workspace,
/// that both report an optimum give points whose distance is bounded by the
/// tolerances, and the bound vanishes with them.
///
/// `e` covers the tolerances of both, `m` bounds the multipliers and rooms at
/// both answers, and `c` the curvature. The proximal term is off.
pub proof fn law_solvers_agree(
    args: QpArgs<real>,
    a: QpConfig<real>,
    b: QpConfig<real>,
    prior_a: Option<Warm<real>>,
    prior_b: Option<Warm<real>>,
    c: real,
    e: real,
    m: real,
)
    requires
        args.wf(),
        args.x0_ok(a, prior_a),
        args.x0_ok(b, prior_b),
        a.prox_weight == 0real,
        b.prox_weight == 0real,
        args.problem(a).bi.len() <= usize::MAX,
        roots_exist(),
        c > 0real,
        strongly_convex(args.h, c),
        e >= 0real,
        m >= 0real,
        solve_qp_s(args, a, prior_a).0.status == QpStatus::Optimal,
        solve_qp_s(args, b, prior_b).0.status == QpStatus::Optimal,
        covers(args.problem(a), a, solve_qp_s(args, a, prior_a).0, e, m),
        covers(args.problem(b), b, solve_qp_s(args, b, prior_b).0, e, m),
        ({
            let s = solve_qp_s(args, a, prior_a).0;
            sized(args.problem(a), s.x, s.lambda_eq, s.lambda_iq, m)
        }),
        ({
            let s = solve_qp_s(args, b, prior_b).0;
            sized(args.problem(b), s.x, s.lambda_eq, s.lambda_iq, m)
        }),
    ensures
        c * norm_sq_s(
            vsub_s(solve_qp_s(args, a, prior_a).0.x, solve_qp_s(args, b, prior_b).0.x),
        ) <= distance_s(args.problem(a), c, e, m),
{
    let q = args.problem(a);
    assert(q == args.problem(b));
    assert(q.wf());
    let (s, t) = (solve_qp_s(args, a, prior_a).0, solve_qp_s(args, b, prior_b).0);
    law_accuracy(args, a, prior_a, e, m);
    law_accuracy(args, b, prior_b, e, m);
    law_near_optimal_agree(
        q,
        s.x,
        s.lambda_eq,
        s.lambda_iq,
        t.x,
        t.lambda_eq,
        t.lambda_iq,
        c,
        e,
        m,
    );
}

} // verus!
