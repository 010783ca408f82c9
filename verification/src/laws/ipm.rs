//! Laws of the interior-point method.

use vstd::prelude::*;

use crate::dense::{
    madd_s, mmul_s, mvec_s, shift_diag_s, transpose_s, vadd_s, vneg_s, vscale_s, vsub_s, vzeros_s,
    Mat,
};
use crate::exact::{distrib, lemma_dot_scale, lemma_madd_mvec, lemma_mmul_mvec, lemma_mvec_add};
use crate::ipm::{
    boundary_s, fraction_to_boundary_s, ipm_done_s, ipm_run_s, ipm_start_s, ipm_step_s,
    kkt_factor_s, newton_s, r_eq_s, r_iq_s, r_stat_s, ratio_s, reduced_kkt_s, t_aff_s, t_cor_s,
    weighted_normal_eq_s, IpmState, IpmStep,
};
use crate::kernels::{is_cholesky, DenseKernels};
use crate::laws::kkt::lemma_lu_vec;
use crate::laws::rotation::lemma_over;
use crate::laws::triangular::{law_chol_solve, law_chol_solve_mat, law_cholesky_rows};
use crate::qp::{Qp, QpConfig, QpStatus};
use crate::scalar::{lit_s, pow10, Arith};
use crate::triangular::{chol_solve_mat_s, chol_solve_s};

verus! {

/// Every entry is positive.
pub open spec fn all_positive(v: Seq<real>) -> bool {
    forall|i: int| 0 <= i < v.len() ==> #[trigger] v[i] > 0real
}

/// Entry `i` keeps its margin after a step of length `a`.
pub open spec fn margin_kept(v: Seq<real>, dv: Seq<real>, tau: real, a: real, i: int) -> bool {
    v[i] + a * dv[i] >= (1real - tau) * v[i]
}

/// Every entry keeps its margin after a step of length `a`.
pub open spec fn margins_kept(v: Seq<real>, dv: Seq<real>, tau: real, a: real) -> bool {
    forall|i: int| 0 <= i < v.len() ==> #[trigger] margin_kept(v, dv, tau, a, i)
}

proof fn lemma_margin(v: real, dv: real, tau: real, a: real)
    ensures
        v + a * dv >= (1real - tau) * v <==> a * dv >= -(tau * v),
{
    distrib(1real, tau, v);
    assert(1real * v == v) by (nonlinear_arith);
}

proof fn lemma_boundary(v: Seq<real>, dv: Seq<real>, tau: real, n: nat)
    requires
        all_positive(v),
        n <= v.len(),
        v.len() == dv.len(),
        tau >= 0real,
    ensures
        ({
            let b = boundary_s(v, dv, tau, n);
            &&& 0real <= b <= 1real
            &&& tau > 0real ==> b > 0real
            &&& forall|i: int|
                0 <= i < n && dv[i] < 0real ==> b * #[trigger] dv[i] >= -(tau * v[i])
            &&& b < 1real ==> exists|i: int|
                0 <= i < n && dv[i] < 0real && b * #[trigger] dv[i] == -(tau * v[i])
        }),
    decreases n,
{
    if n > 0 {
        lemma_boundary(v, dv, tau, (n - 1) as nat);
        let head = boundary_s(v, dv, tau, (n - 1) as nat);
        let b = boundary_s(v, dv, tau, n);
        let k = n - 1;
        let (x, d) = (v[k], dv[k]);
        if d < 0real {
            let r = ((-tau) * x) / d;
            assert(v[k] > 0real);
            lemma_over((-tau) * x, d);
            distrib(tau, x, 0real);
            distrib(d, r, 0real);
            assert(r * d == -(tau * x));
            let tx = tau * x;
            assert(tx >= 0real) by (nonlinear_arith)
                requires
                    tx == tau * x,
                    tau >= 0real,
                    x > 0real,
            ;
            assert(r >= 0real) by (nonlinear_arith)
                requires
                    r * d == -tx,
                    tx >= 0real,
                    d < 0real,
            ;
            if tau > 0real {
                assert(tx > 0real) by (nonlinear_arith)
                    requires
                        tx == tau * x,
                        tau > 0real,
                        x > 0real,
                ;
                assert(r > 0real) by (nonlinear_arith)
                    requires
                        r * d == -tx,
                        tx > 0real,
                        d < 0real,
                ;
            }
            assert(b * d >= r * d) by (nonlinear_arith)
                requires
                    b <= r,
                    d < 0real,
            ;
        }
        assert forall|i: int| 0 <= i < n && dv[i] < 0real implies b * #[trigger] dv[i] >= -(tau
            * v[i]) by {
            if i < k {
                let e = dv[i];
                assert(b * e >= head * e) by (nonlinear_arith)
                    requires
                        b <= head,
                        e < 0real,
                ;
            }
        }
        if b < 1real {
            if d < 0real && b == ((-tau) * x) / d {
                assert(b * dv[k] == -(tau * v[k]));
            } else {
                let i = choose|i: int|
                    0 <= i < n - 1 && dv[i] < 0real && head * #[trigger] dv[i] == -(tau * v[i]);
                assert(b * dv[i] == -(tau * v[i]));
            }
        }
    }
}

/// The fraction-to-boundary step is the largest step of at most one that keeps
/// every entry at `(1 - tau)` of its value or above, and it is positive.
pub proof fn law_fraction_to_boundary(v: Seq<real>, dv: Seq<real>, tau: real)
    requires
        all_positive(v),
        v.len() == dv.len(),
        tau > 0real,
    ensures
        ({
            let a = fraction_to_boundary_s(v, dv, tau);
            &&& 0real < a <= 1real
            &&& margins_kept(v, dv, tau, a)
            &&& forall|b: real| a < b <= 1real ==> !#[trigger] margins_kept(v, dv, tau, b)
        }),
{
    let a = fraction_to_boundary_s(v, dv, tau);
    lemma_boundary(v, dv, tau, v.len());
    assert forall|i: int| 0 <= i < v.len() implies #[trigger] margin_kept(v, dv, tau, a, i) by {
        let (x, d) = (v[i], dv[i]);
        lemma_margin(x, d, tau, a);
        assert(v[i] > 0real);
        if d < 0real {
            assert(a * dv[i] >= -(tau * v[i]));
        } else {
            assert(a * d >= 0real) by (nonlinear_arith)
                requires
                    a > 0real,
                    d >= 0real,
            ;
            assert(tau * x >= 0real) by (nonlinear_arith)
                requires
                    tau > 0real,
                    x > 0real,
            ;
        }
    }
    assert forall|b: real| a < b <= 1real implies !#[trigger] margins_kept(v, dv, tau, b) by {
        let i = choose|i: int|
            0 <= i < v.len() && dv[i] < 0real && a * #[trigger] dv[i] == -(tau * v[i]);
        let d = dv[i];
        lemma_margin(v[i], d, tau, b);
        assert(b * d < a * d) by (nonlinear_arith)
            requires
                a < b,
                d < 0real,
        ;
        assert(!margin_kept(v, dv, tau, b, i));
    }
}

/// The literal `995/1000`.
proof fn lemma_tau()
    ensures
        0real < lit_s::<real>(995, -3) < 1real,
{
    reveal_with_fuel(pow10, 4);
    assert(pow10(3) == 1000real);
    assert(lit_s::<real>(995, -3) == 995real / pow10(3));
    assert(0real < 995real / 1000real < 1real) by (nonlinear_arith);
}

proof fn lemma_step_positive(v: Seq<real>, dv: Seq<real>)
    requires
        all_positive(v),
        v.len() == dv.len(),
    ensures
        all_positive(
            vadd_s(v, vscale_s(fraction_to_boundary_s(v, dv, lit_s::<real>(995, -3)), dv)),
        ),
{
    let tau = lit_s::<real>(995, -3);
    lemma_tau();
    law_fraction_to_boundary(v, dv, tau);
    let a = fraction_to_boundary_s(v, dv, tau);
    let w = vadd_s(v, vscale_s(a, dv));
    assert forall|i: int| 0 <= i < w.len() implies #[trigger] w[i] > 0real by {
        assert(margin_kept(v, dv, tau, a, i));
        let (x, m) = (v[i], 1real - tau);
        assert(v[i] > 0real);
        assert(m * x > 0real) by (nonlinear_arith)
            requires
                m > 0real,
                x > 0real,
        ;
    }
}

/// Slacks and inequality multipliers stay positive.
pub proof fn law_ipm_stays_positive(q: Qp<real>, st: IpmState<real>, next: IpmState<real>)
    requires
        q.wf(),
        st.wf(q),
        all_positive(st.s),
        all_positive(st.z),
        ipm_step_s(q, st) == Some(next),
    ensures
        next.wf(q),
        all_positive(next.s),
        all_positive(next.z),
{
    if q.bi.len() == 0 {
    } else {
        let aff = newton_s(q, st, t_aff_s(st))->0;
        let d = newton_s(q, st, t_cor_s(st, aff))->0;
        assert(d.ds.len() == st.s.len());
        lemma_step_positive(st.s, d.ds);
        lemma_step_positive(st.z, d.dz);
    }
}

/// The matrix that the reduced system is solved with: `h`, or `h` shifted where
/// it does not factor by itself.
pub open spec fn factored_s(h: Mat<real>) -> Mat<real> {
    if real::cholesky_s(h) is Some {
        h
    } else {
        shift_diag_s(h, lit_s::<real>(1, -10))
    }
}

/// The reduced solve gives a solution of
/// `[H A'; A 0] [dx; dy] = [rx; ry]`.
pub proof fn law_reduced_kkt(
    h: Mat<real>,
    ae: Mat<real>,
    rx: Seq<real>,
    ry: Seq<real>,
    dx: Seq<real>,
    dy: Seq<real>,
)
    requires
        h.shaped(rx.len(), rx.len()),
        ae.shaped(ry.len(), rx.len()),
        reduced_kkt_s(h, ae, rx, ry) == Some((dx, dy)),
    ensures
        dx.len() == rx.len(),
        dy.len() == ry.len(),
        vadd_s(mvec_s(factored_s(h), dx), mvec_s(transpose_s(ae), dy)) == rx,
        mvec_s(ae, dx) == ry,
{
    let f = factored_s(h);
    let l = kkt_factor_s(h)->0;
    assert(is_cholesky(l, f));
    law_cholesky_rows(l, f);
    let hr = chol_solve_s(l.rows, rx);
    law_chol_solve(l.rows, rx);
    let at = transpose_s(ae);
    if ae.nrows() == 0 {
        assert(vadd_s(mvec_s(f, dx), mvec_s(at, dy)) =~= rx) by {
            assert forall|i: int| 0 <= i < rx.len() implies mvec_s(at, dy)[i] == 0real by {}
        }
        assert(mvec_s(ae, dx) =~= ry);
    } else {
        let hat = chol_solve_mat_s(l.rows, at);
        law_chol_solve_mat(l.rows, at);
        let s = mmul_s(ae, hat);
        let rhs = vsub_s(mvec_s(ae, hr), ry);
        lemma_lu_vec(s, rhs, dy);
        let w = mvec_s(hat, dy);
        lemma_mvec_add(f, hr, w);
        lemma_mmul_mvec(f, hat, dy);
        assert(vadd_s(mvec_s(f, dx), mvec_s(at, dy)) =~= rx);
        lemma_mvec_add(ae, hr, w);
        lemma_mmul_mvec(ae, hat, dy);
        assert(mvec_s(ae, dx) =~= ry);
    }
}

/// The barrier's part of the Hessian applied to a vector.
proof fn lemma_weighted(a: Mat<real>, w: Seq<real>, x: Seq<real>)
    requires
        a.shaped(w.len(), x.len()),
    ensures
        weighted_normal_eq_s(a, w).shaped(x.len(), x.len()),
        mvec_s(weighted_normal_eq_s(a, w), x) == mvec_s(
            transpose_s(a),
            Seq::new(w.len(), |i: int| w[i] * mvec_s(a, x)[i]),
        ),
{
    let b = Mat::build(a.nrows(), a.ncols(), |i: int, j: int| a.at(i, j).mul_s(w[i]));
    lemma_mmul_mvec(transpose_s(a), b, x);
    let t = Seq::new(w.len(), |i: int| w[i] * mvec_s(a, x)[i]);
    assert forall|i: int| 0 <= i < w.len() implies mvec_s(b, x)[i] == t[i] by {
        let k = w[i];
        assert(b.rows[i] =~= vscale_s(k, a.rows[i])) by {
            assert forall|j: int| 0 <= j < x.len() implies b.rows[i][j] == k * a.rows[i][j] by {
                distrib(a.rows[i][j], k, 0real);
            }
        }
        lemma_dot_scale(x, k, a.rows[i]);
    }
    assert(mvec_s(b, x) =~= t);
}

/// The Newton step solves the linearised optimality conditions: stationarity,
/// both feasibility residuals and the complementarity target.
pub proof fn law_newton(q: Qp<real>, st: IpmState<real>, t: Seq<real>, d: IpmStep<real>)
    requires
        q.wf(),
        st.wf(q),
        all_positive(st.s),
        t.len() == st.s.len(),
        newton_s(q, st, t) == Some(d),
        real::cholesky_s(madd_s(q.h, weighted_normal_eq_s(q.ai, ratio_s(st)))) is Some,
    ensures
        vadd_s(
            vadd_s(mvec_s(q.h, d.dx), mvec_s(transpose_s(q.ae), d.dy)),
            mvec_s(transpose_s(q.ai), d.dz),
        ) == vneg_s(r_stat_s(q, st)),
        mvec_s(q.ae, d.dx) == vneg_s(r_eq_s(q, st)),
        vadd_s(mvec_s(q.ai, d.dx), d.ds) == vneg_s(r_iq_s(q, st)),
        forall|i: int|
            0 <= i < st.s.len() ==> #[trigger] st.s[i] * d.dz[i] + st.z[i] * d.ds[i] == t[i],
        d.dx.len() == q.n(),
        d.dy.len() == q.be.len(),
{
    let zs = ratio_s(st);
    let r_iq = r_iq_s(q, st);
    let wn = weighted_normal_eq_s(q.ai, zs);
    let h_bar = madd_s(q.h, wn);
    let inner = Seq::new(
        st.s.len(),
        |i: int| zs[i].mul_s(r_iq[i]).add_s(t[i].div_s(st.s[i])),
    );
    let at = transpose_s(q.ai);
    let rx = vsub_s(vneg_s(r_stat_s(q, st)), mvec_s(at, inner));
    let ry = vneg_s(r_eq_s(q, st));
    law_reduced_kkt(h_bar, q.ae, rx, ry, d.dx, d.dy);
    lemma_weighted(q.ai, zs, d.dx);
    lemma_madd_mvec(q.h, wn, d.dx);
    let ax = mvec_s(q.ai, d.dx);
    let wax = Seq::new(zs.len(), |i: int| zs[i] * ax[i]);
    assert forall|i: int| 0 <= i < st.s.len() implies d.dz[i] == vadd_s(wax, inner)[i] by {
        distrib(zs[i], -r_iq[i], ax[i]);
        distrib(zs[i], r_iq[i], ax[i]);
    }
    assert(d.dz =~= vadd_s(wax, inner));
    lemma_mvec_add(at, wax, inner);
    let ae_t = transpose_s(q.ae);
    let lhs = vadd_s(vadd_s(mvec_s(q.h, d.dx), mvec_s(ae_t, d.dy)), mvec_s(at, d.dz));
    assert forall|i: int| 0 <= i < q.n() implies lhs[i] == vneg_s(r_stat_s(q, st))[i] by {
        assert(vadd_s(mvec_s(h_bar, d.dx), mvec_s(ae_t, d.dy))[i] == rx[i]);
    }
    assert(lhs =~= vneg_s(r_stat_s(q, st)));
    assert(vadd_s(ax, d.ds) =~= vneg_s(r_iq));
    assert forall|i: int| 0 <= i < st.s.len() implies #[trigger] st.s[i] * d.dz[i] + st.z[i]
        * d.ds[i] == t[i] by {
        let (s, z, e, g) = (st.s[i], st.z[i], d.ds[i], t[i]);
        assert(st.s[i] > 0real);
        lemma_over(g, s);
        lemma_over(z, s);
        distrib(s, g / s, (z / s) * e);
        crate::exact::assoc(s, z / s, e);
    }
}

/// Without inequalities one step reaches an exact solution of the optimality
/// conditions, provided that the Hessian factors.
pub proof fn law_ipm_equality_only(q: Qp<real>, st: IpmState<real>, next: IpmState<real>)
    requires
        q.wf(),
        st.wf(q),
        q.bi.len() == 0,
        real::cholesky_s(q.h) is Some,
        ipm_step_s(q, st) == Some(next),
    ensures
        r_stat_s(q, next) == vzeros_s::<real>(q.n()),
        r_eq_s(q, next) == vzeros_s::<real>(q.be.len()),
{
    let (rs, re) = (r_stat_s(q, st), r_eq_s(q, st));
    let d = reduced_kkt_s(q.h, q.ae, vneg_s(rs), vneg_s(re))->0;
    law_reduced_kkt(q.h, q.ae, vneg_s(rs), vneg_s(re), d.0, d.1);
    let at = transpose_s(q.ae);
    lemma_mvec_add(q.h, st.x, d.0);
    lemma_mvec_add(at, st.y, d.1);
    lemma_mvec_add(q.ae, st.x, d.0);
    assert forall|i: int| 0 <= i < q.n() implies r_stat_s(q, next)[i] == 0real by {
        assert(vadd_s(mvec_s(q.h, d.0), mvec_s(at, d.1))[i] == vneg_s(rs)[i]);
        assert(next.z == st.z);
    }
    assert(r_stat_s(q, next) =~= vzeros_s::<real>(q.n()));
    assert forall|i: int| 0 <= i < q.be.len() implies r_eq_s(q, next)[i] == 0real by {
        assert(mvec_s(q.ae, d.0)[i] == vneg_s(re)[i]);
    }
    assert(r_eq_s(q, next) =~= vzeros_s::<real>(q.be.len()));
}

/// Whatever the arithmetic: at most the allowed iterations are reported, and an
/// optimal answer passed the test on the residuals and the complementarity.
pub proof fn law_ipm_exit<T: DenseKernels>(
    q: Qp<T>,
    cfg: QpConfig<T>,
    st: IpmState<T>,
    iter: usize,
)
    requires
        iter <= cfg.max_iters,
    ensures
        ({
            let sol = ipm_run_s(q, cfg, st, iter);
            &&& sol.iterations <= cfg.max_iters
            &&& sol.objective == crate::qp::objective_s(q.h, q.c, sol.x)
            &&& sol.status != QpStatus::Infeasible
            &&& sol.status == QpStatus::Optimal ==> exists|s: Seq<T>|
                ipm_done_s(
                    q,
                    IpmState { x: sol.x, s, z: sol.lambda_iq, y: sol.lambda_eq },
                    cfg,
                )
        }),
    decreases cfg.max_iters - iter,
{
    if iter < cfg.max_iters {
        if ipm_done_s(q, st, cfg) {
            let sol = ipm_run_s(q, cfg, st, iter);
            assert(st == IpmState { x: sol.x, s: st.s, z: sol.lambda_iq, y: sol.lambda_eq });
        } else {
            match ipm_step_s(q, st) {
                Some(next) => {
                    law_ipm_exit(q, cfg, next, (iter + 1) as usize);
                },
                None => {},
            }
        }
    }
}

proof fn lemma_ipm_positive(q: Qp<real>, cfg: QpConfig<real>, st: IpmState<real>, iter: usize)
    requires
        q.wf(),
        st.wf(q),
        all_positive(st.s),
        all_positive(st.z),
        iter <= cfg.max_iters,
    ensures
        ({
            let sol = ipm_run_s(q, cfg, st, iter);
            &&& sol.x.len() == q.n()
            &&& sol.lambda_eq.len() == q.be.len()
            &&& sol.lambda_iq.len() == q.bi.len()
            &&& all_positive(sol.lambda_iq)
            &&& sol.status == QpStatus::Optimal ==> exists|s: Seq<real>|
                all_positive(s) && s.len() == q.bi.len() && ipm_done_s(
                    q,
                    IpmState { x: sol.x, s, z: sol.lambda_iq, y: sol.lambda_eq },
                    cfg,
                )
        }),
    decreases cfg.max_iters - iter,
{
    if iter < cfg.max_iters {
        if ipm_done_s(q, st, cfg) {
            let sol = ipm_run_s(q, cfg, st, iter);
            assert(st == IpmState { x: sol.x, s: st.s, z: sol.lambda_iq, y: sol.lambda_eq });
        } else {
            match ipm_step_s(q, st) {
                Some(next) => {
                    law_ipm_stays_positive(q, st, next);
                    lemma_ipm_positive(q, cfg, next, (iter + 1) as usize);
                },
                None => {},
            }
        }
    }
}

/// The interior-point method in exact arithmetic: the answer has the lengths of
/// the problem, its inequality multipliers are positive, and an optimal answer has positive slacks with which all
/// optimality conditions hold within tolerance.
pub proof fn law_ipm(q: Qp<real>, cfg: QpConfig<real>)
    requires
        q.wf(),
    ensures
        ({
            let sol = ipm_run_s(q, cfg, ipm_start_s(q), 0);
            &&& sol.x.len() == q.n()
            &&& sol.lambda_eq.len() == q.be.len()
            &&& sol.lambda_iq.len() == q.bi.len()
            &&& all_positive(sol.lambda_iq)
            &&& sol.status == QpStatus::Optimal ==> exists|s: Seq<real>|
                all_positive(s) && s.len() == q.bi.len() && ipm_done_s(
                    q,
                    IpmState { x: sol.x, s, z: sol.lambda_iq, y: sol.lambda_eq },
                    cfg,
                )
        }),
{
    lemma_ipm_positive(q, cfg, ipm_start_s(q), 0);
}

} // verus!
