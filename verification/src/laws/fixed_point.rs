//! An exact optimum is where the iterative solvers stay, and where they stop.

use vstd::prelude::*;

use crate::admm::{
    admm_ctx_s, admm_move_s, admm_run_s, admm_s, admm_start_s, admm_system_s, admm_x_tilde_s,
    admm_z_relaxed_s, relax_s, residuals_s, retune_s, AdmmCtx, AdmmState, Residuals,
};
use crate::dense::{
    dot_s, madd_s, mmul_s, mscale_s, mvec_s, norm_s, norm_sq_s, peak_upto_s, shift_diag_s, slice_s,
    stack_rows_s, transpose_s, vadd_s, vneg_s, vscale_s, vsub_s, vzeros_s, Mat,
};
use crate::exact::{
    lemma_adjoint, lemma_dot_zero, lemma_madd_mvec, lemma_mmul_mvec, lemma_mscale_mvec,
    lemma_mvec_add, lemma_mvec_scale, lemma_mvec_zero, lemma_shift_mvec, lemma_stack_mvec,
};
use crate::ipm::{
    fraction_to_boundary_s, ipm_done_s, ipm_run_s, ipm_start_s, ipm_step_s, newton_s, r_eq_s,
    r_iq_s, r_stat_s, ratio_s, reduced_kkt_s, sigma_s, t_aff_s, t_cor_s, weighted_normal_eq_s,
    IpmState, IpmStep,
};
use crate::kernels::{as_col_s, is_cholesky, is_regular, DenseKernels};
use crate::laws::accuracy::{lemma_peak_nonneg, lemma_stack_transpose};
use crate::laws::admm::{law_admm_subproblem, lemma_ranges, sound_state};
use crate::laws::agree::room_s;
use crate::laws::conic::qp_optimal;
use crate::laws::ipm::{
    all_positive, factored_s, law_fraction_to_boundary, law_ipm_equality_only, law_newton,
    margins_kept,
};
use crate::laws::kkt::lagrangian_s;
use crate::laws::null_space::law_regular_solvable;
use crate::laws::progress::{lemma_definite, lemma_norm_zero};
use crate::laws::rotation::lemma_over;
use crate::laws::triangular::{
    law_chol_solve, law_chol_solve_mat, law_cholesky_rows, law_gram_unique,
};
use crate::qp::{Qp, QpConfig, QpStatus};
use crate::scalar::{clamp_s, is_root, lit_s, pow10, roots_exist, Arith};
use crate::triangular::{chol_solve_mat_s, chol_solve_s};

verus! {

/// The state of the splitting method is at an exact optimum of the program: its
/// point and multipliers meet the optimality conditions, and its copy of the
/// rows is what the point makes of them.
pub open spec fn at_optimum(q: Qp<real>, st: AdmmState<real>) -> bool {
    &&& st.z == mvec_s(stack_rows_s(q.ae, q.ai), st.x)
    &&& qp_optimal(
        q,
        st.x,
        slice_s(st.y, 0, q.be.len()),
        slice_s(st.y, q.be.len(), q.bi.len()),
    )
}

proof fn lemma_relax(v: Seq<real>)
    ensures
        relax_s(v, v) == v,
{
    let k = lit_s::<real>(16, -1);
    assert forall|i: int| 0 <= i < v.len() implies relax_s(v, v)[i] == v[i] by {
        let x = v[i];
        assert(k * x + (1real - k) * x == x) by (nonlinear_arith);
    }
    assert(relax_s(v, v) =~= v);
}

/// The subproblem of an optimal state gives its point back.
proof fn lemma_same_point(q: Qp<real>, cfg: QpConfig<real>, st: AdmmState<real>)
    requires
        q.wf(),
        sound_state(admm_ctx_s(q, cfg), st),
        at_optimum(q, st),
    ensures
        admm_x_tilde_s(admm_ctx_s(q, cfg), st) == st.x,
{
    let p = admm_ctx_s(q, cfg);
    let (x, y, z, rho, sig) = (st.x, st.y, st.z, st.rho, lit_s::<real>(1, -6));
    let m = admm_system_s(p, rho);
    let n = q.n();
    law_admm_subproblem(p, st);
    let xt = admm_x_tilde_s(p, st);
    let (le, li) = (slice_s(y, 0, q.be.len()), slice_s(y, q.be.len(), q.bi.len()));
    assert(y =~= le + li);
    lemma_stack_transpose(q.ae, q.ai, le, li);
    let hs = shift_diag_s(q.h, sig);
    lemma_shift_mvec(q.h, sig, x);
    lemma_mscale_mvec(rho, p.ata, x);
    lemma_madd_mvec(hs, mscale_s(rho, p.ata), x);
    lemma_mmul_mvec(p.at, p.a, x);
    lemma_mvec_scale(p.at, rho, z);
    lemma_mvec_add(p.at, vscale_s(rho, z), y);
    let lag = lagrangian_s(q, q.h, x, le, li);
    let rhs = vadd_s(
        vsub_s(vscale_s(sig, x), q.c),
        mvec_s(p.at, vsub_s(vscale_s(rho, z), y)),
    );
    let lhs = mvec_s(m, x);
    assert forall|i: int| 0 <= i < n implies lhs[i] == rhs[i] by {
        assert(lag[i] == vzeros_s::<real>(n)[i]);
    }
    assert(lhs =~= rhs);
    law_cholesky_rows(st.chol, m);
    law_gram_unique(st.chol.rows, xt, x);
}

/// An exact optimum is a fixed point of the splitting method: a step moves
/// neither the point, nor the copy of the rows, nor the multipliers.
pub proof fn law_admm_fixed_point(q: Qp<real>, cfg: QpConfig<real>, st: AdmmState<real>)
    requires
        q.wf(),
        sound_state(admm_ctx_s(q, cfg), st),
        at_optimum(q, st),
    ensures
        admm_move_s(admm_ctx_s(q, cfg), st) == st,
{
    let p = admm_ctx_s(q, cfg);
    lemma_ranges();
    lemma_same_point(q, cfg, st);
    lemma_relax(st.x);
    lemma_relax(st.z);
    let zr = admm_z_relaxed_s(p, st);
    assert(zr == st.z);
    let next = admm_move_s(p, st);
    let rho = st.rho;
    lemma_stack_mvec(q.ae, q.ai, st.x);
    let li = slice_s(st.y, q.be.len(), q.bi.len());
    assert forall|i: int| 0 <= i < p.u.len() implies next.z[i] == st.z[i] by {
        let (yi, k) = (st.y[i], st.y[i] / rho);
        lemma_over(yi, rho);
        if i < q.be.len() {
            assert(mvec_s(q.ae, st.x)[i] == q.be[i]);
        } else {
            let j = i - q.be.len();
            assert(room_s(q, st.x)[j] >= 0real && li[j] >= 0real);
            assert(k >= 0real) by (nonlinear_arith)
                requires
                    rho * k == yi,
                    yi >= 0real,
                    rho > 0real,
            ;
            if yi == 0real {
                assert(k == 0real) by (nonlinear_arith)
                    requires
                        rho * k == yi,
                        yi == 0real,
                        rho > 0real,
                ;
            }
        }
    }
    assert(next.z =~= st.z);
    assert forall|i: int| 0 <= i < p.u.len() implies next.y[i] == st.y[i] by {
        let d = zr[i] - next.z[i];
        assert(rho * 0real == 0real) by (nonlinear_arith);
        assert(d == 0real);
    }
    assert(next.y =~= st.y);
}

proof fn lemma_peak_zero(a: Seq<real>, n: nat)
    requires
        n <= a.len(),
        forall|i: int| 0 <= i < n ==> #[trigger] a[i] == 0real,
    ensures
        peak_upto_s(a, n) == 0real,
    decreases n,
{
    if n > 0 {
        lemma_peak_zero(a, (n - 1) as nat);
        assert(a[n - 1] == 0real);
        assert(a[0] == 0real);
    }
}

/// At an exact optimum the splitting method stops at once, with that point.
pub proof fn law_admm_stops(q: Qp<real>, cfg: QpConfig<real>, st: AdmmState<real>, iter: usize)
    requires
        q.wf(),
        sound_state(admm_ctx_s(q, cfg), st),
        at_optimum(q, st),
        iter < cfg.max_iters,
        cfg.feasibility_tol > 0real,
        cfg.optimality_tol > 0real,
    ensures
        ({
            let sol = admm_run_s(admm_ctx_s(q, cfg), st, iter);
            sol.status == QpStatus::Optimal && sol.x == st.x && sol.iterations == iter + 1
        }),
{
    let p = admm_ctx_s(q, cfg);
    law_admm_fixed_point(q, cfg, st);
    let r = residuals_s(p, st);
    let (le, li) = (slice_s(st.y, 0, q.be.len()), slice_s(st.y, q.be.len(), q.bi.len()));
    assert(st.y =~= le + li);
    lemma_stack_transpose(q.ae, q.ai, le, li);
    let gap = vsub_s(mvec_s(p.a, st.x), st.z);
    lemma_peak_zero(gap, gap.len());
    let full = vadd_s(vadd_s(mvec_s(q.h, st.x), q.c), mvec_s(p.at, st.y));
    let lag = lagrangian_s(q, q.h, st.x, le, li);
    assert forall|i: int| 0 <= i < full.len() implies #[trigger] full[i] == 0real by {
        assert(lag[i] == vzeros_s::<real>(q.n())[i]);
    }
    lemma_peak_zero(full, full.len());
    lemma_peak_nonneg(mvec_s(p.a, st.x), mvec_s(p.a, st.x).len());
    lemma_peak_nonneg(mvec_s(q.h, st.x), mvec_s(q.h, st.x).len());
    let (f, o, sp, sd) = (cfg.feasibility_tol, cfg.optimality_tol, r.scale_p, r.scale_d);
    assert(f * sp > 0real) by (nonlinear_arith)
        requires
            f > 0real,
            sp > 0real,
    ;
    assert(o * sd > 0real) by (nonlinear_arith)
        requires
            o > 0real,
            sd > 0real,
    ;
}

/// Retuning balances the residuals: a primal residual that lags behind the dual
/// one, each on its scale, never lowers the penalty, and the other way round it
/// never raises it.
pub proof fn law_retune_balances(p: AdmmCtx<real>, st: AdmmState<real>, r: Residuals<real>)
    requires
        lit_s::<real>(1, -6) <= st.rho <= lit_s::<real>(1, 6),
        roots_exist(),
        r.prim >= 0real,
        r.scale_p > 0real,
        r.scale_d > 0real,
        r.dual / r.scale_d >= lit_s::<real>(1, -300),
    ensures
        r.prim / r.scale_p >= r.dual / r.scale_d ==> retune_s(p, st, r).rho >= st.rho,
        r.prim / r.scale_p <= r.dual / r.scale_d ==> retune_s(p, st, r).rho <= st.rho,
        retune_s(p, st, r).x == st.x,
        retune_s(p, st, r).z == st.z,
        retune_s(p, st, r).y == st.y,
{
    let (a, b) = (r.prim / r.scale_p, r.dual / r.scale_d);
    crate::laws::factor::lemma_lit_pos(1, -300);
    lemma_over(r.prim, r.scale_p);
    let (pr, sp) = (r.prim, r.scale_p);
    assert(a >= 0real) by (nonlinear_arith)
        requires
            sp * a == pr,
            pr >= 0real,
            sp > 0real,
    ;
    let k = a / b;
    lemma_over(a, b);
    assert(k >= 0real) by (nonlinear_arith)
        requires
            b * k == a,
            a >= 0real,
            b > 0real,
    ;
    let t = k.sqrt_s();
    assert(is_root(k, t));
    lemma_ranges();
    let rho = st.rho;
    if a >= b {
        assert(k >= 1real) by (nonlinear_arith)
            requires
                b * k == a,
                a >= b,
                b > 0real,
        ;
        assert(t >= 1real) by (nonlinear_arith)
            requires
                t * t == k,
                k >= 1real,
                t >= 0real,
        ;
        assert(rho * t >= rho) by (nonlinear_arith)
            requires
                t >= 1real,
                rho > 0real,
        ;
    }
    if a <= b {
        assert(k <= 1real) by (nonlinear_arith)
            requires
                b * k == a,
                a <= b,
                b > 0real,
        ;
        assert(t <= 1real) by (nonlinear_arith)
            requires
                t * t == k,
                k <= 1real,
                t >= 0real,
        ;
        assert(rho * t <= rho) by (nonlinear_arith)
            requires
                t <= 1real,
                rho > 0real,
        ;
    }
}

/// The penalty stays where the relative residuals differ by a factor of at most
/// 25 either way. Elsewhere it is scaled by the square root of their ratio, as
/// far as its range allows.
pub proof fn law_retune_band(p: AdmmCtx<real>, st: AdmmState<real>, r: Residuals<real>)
    requires
        roots_exist(),
        r.prim >= 0real,
        r.scale_p > 0real,
        r.scale_d > 0real,
        r.dual / r.scale_d >= lit_s::<real>(1, -300),
    ensures
        ({
            let k = (r.prim / r.scale_p) / (r.dual / r.scale_d);
            let rho = retune_s(p, st, r).rho;
            &&& 1real / 25real <= k <= 25real ==> retune_s(p, st, r) == st
            &&& (k < 1real / 25real || k > 25real) && (forall|v: real|
                real::cholesky_s(#[trigger] admm_system_s(p, v)) is Some) ==> {
                ||| rho * rho == st.rho * st.rho * k
                ||| rho == lit_s::<real>(1, -6)
                ||| rho == lit_s::<real>(1, 6)
            }
        }),
{
    let (a, b) = (r.prim / r.scale_p, r.dual / r.scale_d);
    crate::laws::factor::lemma_lit_pos(1, -300);
    lemma_over(r.prim, r.scale_p);
    let (pr, sp) = (r.prim, r.scale_p);
    assert(a >= 0real) by (nonlinear_arith)
        requires
            sp * a == pr,
            pr >= 0real,
            sp > 0real,
    ;
    let k = a / b;
    lemma_over(a, b);
    assert(k >= 0real) by (nonlinear_arith)
        requires
            b * k == a,
            a >= 0real,
            b > 0real,
    ;
    let t = k.sqrt_s();
    assert(is_root(k, t));
    reveal_with_fuel(pow10, 2);
    assert(pow10(0) == 1real && pow10(1) == 10real);
    assert(lit_s::<real>(2, -1) == 2real / pow10(1));
    assert(lit_s::<real>(5, 0) == 5real * pow10(0));
    assert(2real / 10real == 1real / 5real) by (nonlinear_arith);
    assert(5real * 1real == 5real) by (nonlinear_arith);
    assert((1real / 5real <= t) == (1real / 25real <= k)) by (nonlinear_arith)
        requires
            t * t == k,
            t >= 0real,
    ;
    assert((t <= 5real) == (k <= 25real)) by (nonlinear_arith)
        requires
            t * t == k,
            t >= 0real,
    ;
    let u = st.rho;
    assert((u * t) * (u * t) == u * u * k) by (nonlinear_arith)
        requires
            t * t == k,
    ;
    let rho = clamp_s(u * t, lit_s::<real>(1, -6), lit_s::<real>(1, 6));
    if forall|v: real| real::cholesky_s(#[trigger] admm_system_s(p, v)) is Some {
        assert(real::cholesky_s(admm_system_s(p, rho)) is Some);
    }
}

/// The interior-point method takes an iterate for optimal exactly where its
/// residuals of stationarity and of both constraint blocks are below the
/// tolerances, relative to the linear cost, and the mean of the complementarity
/// products is below the tolerance.
pub proof fn law_ipm_accepts(q: Qp<real>, cfg: QpConfig<real>, st: IpmState<real>)
    requires
        q.wf(),
        st.wf(q),
        q.bi.len() <= usize::MAX,
        cfg.optimality_tol > 0real,
    ensures
        ipm_done_s(q, st, cfg) <==> {
            let scale = 1real + norm_s(q.c);
            &&& norm_s(lagrangian_s(q, q.h, st.x, st.y, st.z)) < cfg.optimality_tol * scale
            &&& norm_s(vsub_s(mvec_s(q.ae, st.x), q.be)) < cfg.feasibility_tol * scale
            &&& norm_s(vsub_s(vadd_s(mvec_s(q.ai, st.x), st.s), q.bi)) < cfg.feasibility_tol * scale
            &&& q.bi.len() > 0 ==> dot_s(st.s, st.z) < (q.bi.len() as real) * cfg.optimality_tol
        },
{
    assert(lagrangian_s(q, q.h, st.x, st.y, st.z) =~= r_stat_s(q, st));
    if q.bi.len() > 0 {
        let (d, k, t) = (dot_s(st.s, st.z), q.bi.len() as real, cfg.optimality_tol);
        lemma_over(d, k);
        let m = d / k;
        assert(real::nat_s(st.s.len() as usize) == k);
        assert(m < t <==> d < k * t) by {
            if m < t {
                assert(d < k * t) by (nonlinear_arith)
                    requires
                        k * m == d,
                        m < t,
                        k > 0real,
                ;
            } else {
                assert(d >= k * t) by (nonlinear_arith)
                    requires
                        k * m == d,
                        m >= t,
                        k > 0real,
                ;
            }
        }
    }
}

/// The run of the interior-point method ends with an optimum at the first iterate
/// that is accepted, and with that iterate.
pub proof fn law_ipm_stops(q: Qp<real>, cfg: QpConfig<real>, st: IpmState<real>, iter: usize)
    requires
        ipm_done_s(q, st, cfg),
        iter < cfg.max_iters,
    ensures
        ({
            let sol = ipm_run_s(q, cfg, st, iter);
            &&& sol.status == QpStatus::Optimal
            &&& sol.x == st.x
            &&& sol.lambda_eq == st.y
            &&& sol.lambda_iq == st.z
        }),
{
}

/// A step of the interior-point method shrinks both feasibility residuals by one
/// common factor, `1 - a` for the step length `a` of the slacks.
pub proof fn law_ipm_contracts(q: Qp<real>, st: IpmState<real>, next: IpmState<real>)
    requires
        q.wf(),
        st.wf(q),
        q.bi.len() > 0,
        all_positive(st.s),
        all_positive(st.z),
        real::cholesky_s(madd_s(q.h, weighted_normal_eq_s(q.ai, ratio_s(st)))) is Some,
        ipm_step_s(q, st) == Some(next),
    ensures
        exists|a: real|
            {
                &&& 0real < a <= 1real
                &&& r_eq_s(q, next) == #[trigger] vscale_s(1real - a, r_eq_s(q, st))
                &&& r_iq_s(q, next) == vscale_s(1real - a, r_iq_s(q, st))
            },
{
    let aff = newton_s(q, st, t_aff_s(st))->Some_0;
    let d = newton_s(q, st, t_cor_s(st, aff))->Some_0;
    law_newton(q, st, t_cor_s(st, aff), d);
    let tau = lit_s::<real>(995, -3);
    crate::laws::factor::lemma_lit_pos(995, -3);
    let a = fraction_to_boundary_s(st.s, d.ds, tau);
    law_fraction_to_boundary(st.s, d.ds, tau);
    lemma_mvec_add(q.ae, st.x, vscale_s(a, d.dx));
    lemma_mvec_scale(q.ae, a, d.dx);
    lemma_mvec_add(q.ai, st.x, vscale_s(a, d.dx));
    lemma_mvec_scale(q.ai, a, d.dx);
    let (re, ri) = (r_eq_s(q, st), r_iq_s(q, st));
    let (le, li) = (r_eq_s(q, next), r_iq_s(q, next));
    assert forall|i: int| 0 <= i < re.len() implies le[i] == vscale_s(1real - a, re)[i] by {
        let (v, u) = (re[i], mvec_s(q.ae, d.dx)[i]);
        assert(mvec_s(q.ae, d.dx)[i] == vneg_s(re)[i]);
        assert(v + a * u == (1real - a) * v) by (nonlinear_arith)
            requires
                u == -v,
        ;
    }
    assert(le =~= vscale_s(1real - a, re));
    assert forall|i: int| 0 <= i < ri.len() implies li[i] == vscale_s(1real - a, ri)[i] by {
        let (v, u, w) = (ri[i], mvec_s(q.ai, d.dx)[i], d.ds[i]);
        assert(vadd_s(mvec_s(q.ai, d.dx), d.ds)[i] == vneg_s(ri)[i]);
        assert(v + a * u + a * w == (1real - a) * v) by (nonlinear_arith)
            requires
                u + w == -v,
        ;
    }
    assert(li =~= vscale_s(1real - a, ri));
}

/// The reduced system can be solved wherever its matrix factors, by itself or
/// with `1e-10` added to its diagonal, and the rows of the equalities are
/// independent.
pub proof fn law_reduced_solvable(h: Mat<real>, ae: Mat<real>, rx: Seq<real>, ry: Seq<real>)
    requires
        h.shaped(rx.len(), rx.len()),
        ae.shaped(ry.len(), rx.len()),
        real::cholesky_s(h) is Some || real::cholesky_s(
            shift_diag_s(h, lit_s::<real>(1, -10)),
        ) is Some,
        is_regular(mmul_s(ae, transpose_s(ae))),
    ensures
        reduced_kkt_s(h, ae, rx, ry) is Some,
{
    let f = factored_s(h);
    let l = real::cholesky_s(f)->Some_0;
    assert(is_cholesky(l, f));
    law_cholesky_rows(l, f);
    if ae.nrows() > 0 {
        let at = transpose_s(ae);
        let hat = chol_solve_mat_s(l.rows, at);
        law_chol_solve_mat(l.rows, at);
        law_chol_solve(l.rows, rx);
        let s = mmul_s(ae, hat);
        let rhs = vsub_s(mvec_s(ae, chol_solve_s(l.rows, rx)), ry);
        assert forall|v: Seq<real>|
            v.len() == s.ncols() && #[trigger] mvec_s(s, v) == vzeros_s::<real>(
                s.nrows(),
            ) implies v == vzeros_s::<real>(s.ncols()) by {
            let w = mvec_s(hat, v);
            let u = mvec_s(at, v);
            lemma_mmul_mvec(ae, hat, v);
            lemma_mmul_mvec(f, hat, v);
            assert(mvec_s(f, w) == u);
            lemma_adjoint(ae, w, v);
            lemma_dot_zero(v, v.len());
            assert(dot_s(w, u) == 0real);
            lemma_definite(l.rows, f, w);
            lemma_mvec_zero(f);
            assert(u == vzeros_s::<real>(rx.len()));
            lemma_mmul_mvec(ae, at, v);
            lemma_mvec_zero(ae);
        }
        law_regular_solvable(s, as_col_s(rhs));
    }
}

/// The interior-point method solves every problem without inequalities whose
/// Hessian factors and whose equalities are independent, in two iterations at
/// most.
pub proof fn law_ipm_solves_equalities(q: Qp<real>, cfg: QpConfig<real>)
    requires
        q.wf(),
        q.bi.len() == 0,
        real::cholesky_s(q.h) is Some,
        is_regular(mmul_s(q.ae, transpose_s(q.ae))),
        roots_exist(),
        cfg.max_iters >= 2,
        cfg.feasibility_tol > 0real,
        cfg.optimality_tol > 0real,
    ensures
        ({
            let sol = ipm_run_s(q, cfg, ipm_start_s(q), 0);
            sol.status == QpStatus::Optimal && sol.iterations <= 2
        }),
{
    let st = ipm_start_s(q);
    law_reduced_solvable(q.h, q.ae, vneg_s(r_stat_s(q, st)), vneg_s(r_eq_s(q, st)));
    reveal_with_fuel(ipm_run_s, 3);
    if !ipm_done_s(q, st, cfg) {
        let next = ipm_step_s(q, st)->Some_0;
        law_ipm_equality_only(q, st, next);
        lemma_norm_zero(q.n());
        lemma_norm_zero(q.be.len());
        lemma_norm_zero(0);
        assert(r_iq_s(q, next) =~= vzeros_s::<real>(0));
        crate::exact::lemma_norm_sq_nonneg(q.c, q.c.len());
        let c = norm_sq_s(q.c);
        assert(is_root(c, c.sqrt_s()));
        let (s, f, o) = (1real + norm_s(q.c), cfg.feasibility_tol, cfg.optimality_tol);
        assert(f * s > 0real && o * s > 0real) by (nonlinear_arith)
            requires
                f > 0real,
                o > 0real,
                s > 0real,
        ;
        assert(ipm_done_s(q, next, cfg));
    }
}

/// The relaxed step of the splitting method: the point moves eight fifths of the
/// way to the solution of the subproblem, and the multipliers by the penalty
/// times what the box takes off the relaxed rows.
pub proof fn law_admm_relaxed(p: AdmmCtx<real>, st: AdmmState<real>, i: int, j: int)
    requires
        p.wf(),
        sound_state(p, st),
        0 <= i < p.q.n(),
        0 <= j < p.u.len(),
    ensures
        ({
            let next = admm_move_s(p, st);
            let xt = admm_x_tilde_s(p, st);
            let relaxed = st.z[j] + (8real / 5real) * (mvec_s(p.a, xt)[j] - st.z[j]);
            &&& next.x[i] - st.x[i] == (8real / 5real) * (xt[i] - st.x[i])
            &&& next.y[j] == st.y[j] + st.rho * (relaxed - next.z[j])
            &&& next.rho == st.rho
        }),
{
    law_admm_subproblem(p, st);
    let xt = admm_x_tilde_s(p, st);
    let k = lit_s::<real>(16, -1);
    assert(k == 8real / 5real) by {
        reveal_with_fuel(pow10, 2);
        assert(pow10(1) == 10real);
        assert(16real / 10real == 8real / 5real) by (nonlinear_arith);
    }
    let (a, b) = (xt[i], st.x[i]);
    assert(k * a + (1real - k) * b - b == k * (a - b)) by (nonlinear_arith);
    let (c, d) = (mvec_s(p.a, xt)[j], st.z[j]);
    assert(k * c + (1real - k) * d == d + k * (c - d)) by (nonlinear_arith);
}

/// One step of the interior-point method: a predictor that aims at
/// complementarity zero, a corrector that aims at a part of the present mean
/// less the second-order error of the predictor, both solutions of the
/// linearised optimality conditions; then the longest steps of at most one that
/// keep the slacks, and the multipliers, above half a percent of their values.
/// The part is the cube of what the predictor would leave of the mean.
pub proof fn law_ipm_step(q: Qp<real>, st: IpmState<real>, next: IpmState<real>)
    requires
        q.wf(),
        st.wf(q),
        q.bi.len() > 0,
        all_positive(st.s),
        all_positive(st.z),
        real::cholesky_s(madd_s(q.h, weighted_normal_eq_s(q.ai, ratio_s(st)))) is Some,
        ipm_step_s(q, st) == Some(next),
    ensures
        exists|aff: IpmStep<real>, d: IpmStep<real>, share: real, a: real, b: real|
            {
                &&& #[trigger] predicts(q, st, aff)
                &&& #[trigger] corrects_step(q, st, aff, d, share)
                &&& q.bi.len() <= usize::MAX ==> centred(st, aff, share)
                &&& #[trigger] longest(st.s, d.ds, a)
                &&& #[trigger] longest(st.z, d.dz, b)
                &&& next.x == vadd_s(st.x, vscale_s(a, d.dx))
                &&& next.s == vadd_s(st.s, vscale_s(a, d.ds))
                &&& next.z == vadd_s(st.z, vscale_s(b, d.dz))
                &&& next.y == vadd_s(st.y, vscale_s(b, d.dy))
            },
{
    let aff = newton_s(q, st, t_aff_s(st))->Some_0;
    let d = newton_s(q, st, t_cor_s(st, aff))->Some_0;
    law_newton(q, st, t_aff_s(st), aff);
    law_newton(q, st, t_cor_s(st, aff), d);
    crate::laws::factor::lemma_lit_pos(995, -3);
    let tau = lit_s::<real>(995, -3);
    let (a, b) = (
        fraction_to_boundary_s(st.s, d.ds, tau),
        fraction_to_boundary_s(st.z, d.dz, tau),
    );
    law_fraction_to_boundary(st.s, d.ds, tau);
    law_fraction_to_boundary(st.z, d.dz, tau);
    let share = sigma_s(st, aff);
    assert(0real <= share <= 1real);
    assert(solves(q, st, aff, t_aff_s(st)));
    assert(predicts(q, st, aff));
    assert(solves(q, st, d, t_cor_s(st, aff)));
    assert(corrects_step(q, st, aff, d, share));
    if q.bi.len() <= usize::MAX {
        lemma_centred(st, aff);
    }
    assert(longest(st.s, d.ds, a));
    assert(longest(st.z, d.dz, b));
}

/// A direction solves the optimality conditions, linearised at `st`, with the
/// targets `t` for the complementarity products.
pub open spec fn solves(
    q: Qp<real>,
    st: IpmState<real>,
    d: IpmStep<real>,
    t: Seq<real>,
) -> bool {
    &&& vadd_s(
        vadd_s(mvec_s(q.h, d.dx), mvec_s(transpose_s(q.ae), d.dy)),
        mvec_s(transpose_s(q.ai), d.dz),
    ) == vneg_s(lagrangian_s(q, q.h, st.x, st.y, st.z))
    &&& mvec_s(q.ae, d.dx) == vneg_s(vsub_s(mvec_s(q.ae, st.x), q.be))
    &&& vadd_s(mvec_s(q.ai, d.dx), d.ds) == vneg_s(
        vsub_s(vadd_s(mvec_s(q.ai, st.x), st.s), q.bi),
    )
    &&& forall|i: int|
        0 <= i < st.s.len() ==> #[trigger] st.s[i] * d.dz[i] + st.z[i] * d.ds[i] == t[i]
}

/// The predictor.
pub open spec fn predicts(q: Qp<real>, st: IpmState<real>, aff: IpmStep<real>) -> bool {
    solves(q, st, aff, Seq::new(st.s.len(), |i: int| -(st.s[i] * st.z[i])))
}

/// The corrector, for a share between zero and one of the mean product.
pub open spec fn corrects_step(
    q: Qp<real>,
    st: IpmState<real>,
    aff: IpmStep<real>,
    d: IpmStep<real>,
    share: real,
) -> bool {
    &&& 0real <= share <= 1real
    &&& solves(
        q,
        st,
        d,
        Seq::new(
            st.s.len(),
            |i: int|
                -(st.s[i] * st.z[i]) + share * (dot_s(st.s, st.z) / real::nat_s(
                    st.s.len() as usize,
                )) - aff.ds[i] * aff.dz[i],
        ),
    )
}

/// The share is the cube of the part of the mean product that a full predictor
/// step, as far as the slacks and multipliers stay nonnegative, would leave. It
/// is nothing where the mean has all but vanished.
pub open spec fn centred(st: IpmState<real>, aff: IpmStep<real>, share: real) -> bool {
    let sa = vadd_s(st.s, vscale_s(fraction_to_boundary_s(st.s, aff.ds, 1real), aff.ds));
    let za = vadd_s(st.z, vscale_s(fraction_to_boundary_s(st.z, aff.dz, 1real), aff.dz));
    let part = dot_s(sa, za) / dot_s(st.s, st.z);
    if dot_s(st.s, st.z) / real::nat_s(st.s.len() as usize) <= lit_s::<real>(1, -14) {
        share == 0real
    } else if 0real <= part * part * part <= 1real {
        share == part * part * part
    } else if part * part * part < 0real {
        share == 0real
    } else {
        share == 1real
    }
}

proof fn lemma_centred(st: IpmState<real>, aff: IpmStep<real>)
    requires
        st.s.len() > 0,
        st.s.len() <= usize::MAX,
    ensures
        centred(st, aff, sigma_s(st, aff)),
{
    let sa = vadd_s(st.s, vscale_s(fraction_to_boundary_s(st.s, aff.ds, 1real), aff.ds));
    let za = vadd_s(st.z, vscale_s(fraction_to_boundary_s(st.z, aff.dz, 1real), aff.dz));
    let (d, e) = (dot_s(st.s, st.z), dot_s(sa, za));
    let m = real::nat_s(st.s.len() as usize);
    crate::laws::factor::lemma_lit_pos(1, -14);
    assert(m > 0real);
    lemma_over(d, m);
    lemma_over(e, m);
    let (x, y) = (d / m, e / m);
    if x > lit_s::<real>(1, -14) {
        assert(d > 0real) by (nonlinear_arith)
            requires
                m * x == d,
                m > 0real,
                x > 0real,
        ;
        lemma_over(y, x);
        lemma_over(e, d);
        let (u, v) = (y / x, e / d);
        assert(u == v) by (nonlinear_arith)
            requires
                m * x == d,
                m * y == e,
                x * u == y,
                d * v == e,
                d > 0real,
        ;
    }
}

/// `a` is the longest step of at most one that leaves every entry above half a
/// percent of its value.
pub open spec fn longest(v: Seq<real>, dv: Seq<real>, a: real) -> bool {
    &&& 0real < a <= 1real
    &&& margins_kept(v, dv, lit_s::<real>(995, -3), a)
    &&& forall|b: real|
        a < b <= 1real ==> !#[trigger] margins_kept(v, dv, lit_s::<real>(995, -3), b)
}

/// A step of the interior-point method exists wherever the Hessian, with the
/// weighted inequalities added, factors, by itself or with `1e-10` added to its
/// diagonal, and the equalities are independent.
pub proof fn law_ipm_step_exists(q: Qp<real>, st: IpmState<real>)
    requires
        q.wf(),
        st.wf(q),
        q.bi.len() > 0,
        ({
            let h = madd_s(q.h, weighted_normal_eq_s(q.ai, ratio_s(st)));
            real::cholesky_s(h) is Some || real::cholesky_s(
                shift_diag_s(h, lit_s::<real>(1, -10)),
            ) is Some
        }),
        is_regular(mmul_s(q.ae, transpose_s(q.ae))),
    ensures
        ipm_step_s(q, st) is Some,
{
    lemma_newton_exists(q, st, t_aff_s(st));
    let aff = newton_s(q, st, t_aff_s(st))->Some_0;
    lemma_newton_exists(q, st, t_cor_s(st, aff));
}

proof fn lemma_newton_exists(q: Qp<real>, st: IpmState<real>, t: Seq<real>)
    requires
        q.wf(),
        st.wf(q),
        ({
            let h = madd_s(q.h, weighted_normal_eq_s(q.ai, ratio_s(st)));
            real::cholesky_s(h) is Some || real::cholesky_s(
                shift_diag_s(h, lit_s::<real>(1, -10)),
            ) is Some
        }),
        is_regular(mmul_s(q.ae, transpose_s(q.ae))),
    ensures
        newton_s(q, st, t) is Some,
{
    let zs = ratio_s(st);
    let r_iq = r_iq_s(q, st);
    let h_bar = madd_s(q.h, weighted_normal_eq_s(q.ai, zs));
    let inner = Seq::new(
        st.s.len(),
        |i: int| zs[i].mul_s(r_iq[i]).add_s(t[i].div_s(st.s[i])),
    );
    let rx = vsub_s(vneg_s(r_stat_s(q, st)), mvec_s(transpose_s(q.ai), inner));
    law_reduced_solvable(h_bar, q.ae, rx, vneg_s(r_eq_s(q, st)));
}

/// The splitting method runs wherever its first system,
/// `H + 1e-6 I + 10 A'A`, factors: it then ends with an optimum or with its
/// iterations spent.
pub proof fn law_admm_runs(q: Qp<real>, cfg: QpConfig<real>)
    requires
        q.wf(),
        q.be.len() + q.bi.len() > 0,
        ({
            let a = stack_rows_s(q.ae, q.ai);
            real::cholesky_s(
                madd_s(
                    shift_diag_s(q.h, lit_s::<real>(1, -6)),
                    mscale_s(lit_s::<real>(10, 0), mmul_s(transpose_s(a), a)),
                ),
            ) is Some
        }),
    ensures
        admm_s(q, cfg).status == QpStatus::Optimal || admm_s(q, cfg).status
            == QpStatus::MaxIterations && admm_s(q, cfg).iterations == cfg.max_iters,
{
    let p = admm_ctx_s(q, cfg);
    let l = real::cholesky_s(admm_system_s(p, lit_s::<real>(10, 0)))->Some_0;
    lemma_admm_status(p, admm_start_s(p, l), 0);
}

proof fn lemma_admm_status(p: AdmmCtx<real>, st: AdmmState<real>, iter: usize)
    ensures
        ({
            let sol = admm_run_s(p, st, iter);
            sol.status == QpStatus::Optimal || sol.status == QpStatus::MaxIterations
                && sol.iterations == p.cfg.max_iters
        }),
    decreases p.cfg.max_iters - iter,
{
    if iter < p.cfg.max_iters {
        let next = admm_move_s(p, st);
        let r = residuals_s(p, next);
        lemma_admm_status(p, next, (iter + 1) as usize);
        lemma_admm_status(p, retune_s(p, next, r), (iter + 1) as usize);
    }
}

} // verus!
