//! Laws of the operator-splitting method.

use vstd::prelude::*;

use crate::admm::{
    admm_ctx_s, admm_done_s, admm_move_s, admm_run_s, admm_s, admm_start_s, admm_system_s,
    admm_x_tilde_s, admm_z_relaxed_s, box_s, residuals_s, retune_s, AdmmCtx, AdmmState, Residuals,
};
use crate::dense::{mvec_s, peak_s, peak_upto_s, vadd_s, vneg_s, vscale_s, vsub_s};
use crate::exact::{distrib, lemma_stack_mvec};
use crate::kernels::{is_cholesky, DenseKernels};
use crate::laws::factor::lemma_lit_pos;
use crate::laws::rotation::lemma_over;
use crate::laws::triangular::{law_chol_solve, law_cholesky_rows};
use crate::qp::{Qp, QpConfig, QpStatus, Sol};
use crate::scalar::{lit_s, pow10, Arith};

verus! {

/// `v` lies in the box of row `i`: on the bound of an equality, at or below
/// that of an inequality.
pub open spec fn in_box(p: AdmmCtx<real>, i: int, v: real) -> bool {
    if i < p.q.be.len() {
        v == p.u[i]
    } else {
        v <= p.u[i]
    }
}

/// The penalty, its factor and the multipliers of an iterate are sound: the
/// penalty lies in `[1e-6, 1e6]`, the factor is that of the system for it, and
/// no multiplier of an inequality is negative.
pub open spec fn sound_state(p: AdmmCtx<real>, st: AdmmState<real>) -> bool {
    &&& st.wf(p)
    &&& lit_s::<real>(1, -6) <= st.rho <= lit_s::<real>(1, 6)
    &&& is_cholesky(st.chol, admm_system_s(p, st.rho))
    &&& forall|i: int| p.q.be.len() <= i < p.u.len() ==> #[trigger] st.y[i] >= 0real
}

pub proof fn lemma_ranges()
    ensures
        lit_s::<real>(1, -6) > 0real,
        lit_s::<real>(1, -6) <= lit_s::<real>(10, 0) <= lit_s::<real>(1, 6),
{
    lemma_lit_pos(1, -6);
    reveal_with_fuel(pow10, 7);
    assert(pow10(6) == 1000000real);
    assert(pow10(0) == 1real);
    assert(lit_s::<real>(10, 0) == 10real * pow10(0));
    assert(lit_s::<real>(1, 6) == 1real * pow10(6));
    assert(lit_s::<real>(1, -6) == 1real / pow10(6));
    assert(1real / 1000000real <= 10real) by (nonlinear_arith);
    assert(1real * 1000000real == 1000000real) by (nonlinear_arith);
    assert(10real * 1real == 10real) by (nonlinear_arith);
}

/// The box projection lands in the box, and leaves what is inside.
pub proof fn law_box(p: AdmmCtx<real>, i: int, v: real)
    ensures
        in_box(p, i, box_s(p, i, v)),
        in_box(p, i, v) ==> box_s(p, i, v) == v,
{
}

/// The linear subproblem is solved exactly:
/// `(H + sigma I + rho A'A) xt = sigma x - c + A'(rho z - y)`.
pub proof fn law_admm_subproblem(p: AdmmCtx<real>, st: AdmmState<real>)
    requires
        p.wf(),
        sound_state(p, st),
    ensures
        admm_x_tilde_s(p, st).len() == p.q.n(),
        mvec_s(admm_system_s(p, st.rho), admm_x_tilde_s(p, st)) == vadd_s(
            vsub_s(vscale_s(lit_s::<real>(1, -6), st.x), p.q.c),
            mvec_s(p.at, vsub_s(vscale_s(st.rho, st.z), st.y)),
        ),
{
    let m = admm_system_s(p, st.rho);
    law_cholesky_rows(st.chol, m);
    law_chol_solve(
        st.chol.rows,
        vadd_s(
            vsub_s(vscale_s(lit_s::<real>(1, -6), st.x), p.q.c),
            mvec_s(p.at, vsub_s(vscale_s(st.rho, st.z), st.y)),
        ),
    );
}

/// A step keeps the state sound and ends in the box; a positive multiplier of
/// an inequality means that its bound is reached.
pub proof fn law_admm_step(p: AdmmCtx<real>, st: AdmmState<real>)
    requires
        p.wf(),
        sound_state(p, st),
    ensures
        ({
            let next = admm_move_s(p, st);
            &&& sound_state(p, next)
            &&& forall|i: int| 0 <= i < p.u.len() ==> in_box(p, i, #[trigger] next.z[i])
            &&& forall|i: int|
                p.q.be.len() <= i < p.u.len() && #[trigger] next.y[i] > 0real ==> next.z[i]
                    == p.u[i]
        }),
{
    lemma_ranges();
    law_admm_subproblem(p, st);
    let next = admm_move_s(p, st);
    let zr = admm_z_relaxed_s(p, st);
    let rho = st.rho;
    assert forall|i: int| 0 <= i < p.u.len() implies in_box(p, i, #[trigger] next.z[i]) by {
        law_box(p, i, zr[i] + st.y[i] / rho);
    }
    assert forall|i: int| p.q.be.len() <= i < p.u.len() implies #[trigger] next.y[i] >= 0real && (
    next.y[i] > 0real ==> next.z[i] == p.u[i]) by {
        let (y, u, v) = (st.y[i], p.u[i], zr[i]);
        let k = y / rho;
        assert(st.y[i] >= 0real);
        lemma_over(y, rho);
        distrib(rho, v, next.z[i]);
        distrib(rho, v, k);
        distrib(rho, v + k, u);
        if u < v + k {
            assert(rho * (v + k - u) >= 0real) by (nonlinear_arith)
                requires
                    rho > 0real,
                    v + k - u > 0real,
            ;
        }
    }
}

/// Retuning keeps the state sound and touches the penalty alone.
pub proof fn law_admm_retune(p: AdmmCtx<real>, st: AdmmState<real>, r: Residuals<real>)
    requires
        p.wf(),
        sound_state(p, st),
    ensures
        sound_state(p, retune_s(p, st, r)),
        retune_s(p, st, r).x == st.x,
        retune_s(p, st, r).z == st.z,
        retune_s(p, st, r).y == st.y,
{
    lemma_ranges();
    let next = retune_s(p, st, r);
    assert forall|i: int| p.q.be.len() <= i < p.u.len() implies #[trigger] next.y[i] >= 0real by {
        assert(st.y[i] >= 0real);
    }
}

/// No entry exceeds the largest magnitude.
pub proof fn lemma_peak(a: Seq<real>, n: nat, i: int)
    requires
        0 <= i < n,
    ensures
        a[i].abs_s() <= peak_upto_s(a, n),
    decreases n,
{
    if i < n - 1 {
        lemma_peak(a, (n - 1) as nat, i);
    }
}

/// An optimal answer and the iterate `st` that it was taken from: the iterate
/// passed the test on its residuals, its auxiliary variable is in the box, and
/// so the constraints hold up to the primal residual. The dual residual is that
/// of stationarity. Complementary slackness holds with the auxiliary variable: a
/// positive multiplier of an inequality means that its bound is reached there,
/// and so by the point up to the primal residual.
pub open spec fn optimal_at(p: AdmmCtx<real>, sol: Sol<real>, st: AdmmState<real>) -> bool {
    let q = p.q;
    let r = residuals_s(p, st);
    &&& st.wf(p)
    &&& st.x == sol.x
    &&& st.y == sol.lambda_eq + sol.lambda_iq
    &&& forall|i: int| 0 <= i < p.u.len() ==> in_box(p, i, #[trigger] st.z[i])
    &&& r.prim < p.cfg.feasibility_tol * r.scale_p
    &&& r.dual < p.cfg.optimality_tol * r.scale_d
    &&& forall|i: int|
        0 <= i < q.be.len() ==> #[trigger] (mvec_s(q.ae, sol.x)[i] - q.be[i]).abs_s() <= r.prim
    &&& forall|i: int|
        0 <= i < q.bi.len() ==> #[trigger] mvec_s(q.ai, sol.x)[i] <= q.bi[i] + r.prim
    &&& forall|i: int|
        q.be.len() <= i < p.u.len() && #[trigger] st.y[i] > 0real ==> st.z[i] == p.u[i]
    &&& forall|i: int|
        0 <= i < q.bi.len() && #[trigger] sol.lambda_iq[i] > 0real ==> mvec_s(q.ai, sol.x)[i]
            >= q.bi[i] - r.prim
}

proof fn lemma_admm_run(p: AdmmCtx<real>, st: AdmmState<real>, iter: usize)
    requires
        p == admm_ctx_s(p.q, p.cfg),
        p.wf(),
        sound_state(p, st),
        iter <= p.cfg.max_iters,
    ensures
        ({
            let sol = admm_run_s(p, st, iter);
            &&& sol.x.len() == p.q.n()
            &&& sol.lambda_eq.len() == p.q.be.len()
            &&& sol.lambda_iq.len() == p.q.bi.len()
            &&& forall|i: int| 0 <= i < sol.lambda_iq.len() ==> #[trigger] sol.lambda_iq[i] >= 0real
            &&& sol.status == QpStatus::Optimal ==> exists|e: AdmmState<real>| optimal_at(p, sol, e)
        }),
    decreases p.cfg.max_iters - iter,
{
    let q = p.q;
    let sol = admm_run_s(p, st, iter);
    if iter >= p.cfg.max_iters {
        assert forall|i: int| 0 <= i < sol.lambda_iq.len() implies #[trigger] sol.lambda_iq[i]
            >= 0real by {
            assert(st.y[q.be.len() + i] >= 0real);
        }
    } else {
        let next = admm_move_s(p, st);
        let r = residuals_s(p, next);
        law_admm_step(p, st);
        law_admm_retune(p, next, r);
        if admm_done_s(r, p.cfg) {
            assert forall|i: int| 0 <= i < sol.lambda_iq.len() implies #[trigger] sol.lambda_iq[i]
                >= 0real by {
                assert(next.y[q.be.len() + i] >= 0real);
            }
            lemma_stack_mvec(q.ae, q.ai, next.x);
            let gap = vsub_s(mvec_s(p.a, next.x), next.z);
            assert forall|i: int| 0 <= i < q.be.len() implies #[trigger] (mvec_s(q.ae, sol.x)[i]
                - q.be[i]).abs_s() <= r.prim by {
                lemma_peak(gap, gap.len(), i);
                assert(in_box(p, i, next.z[i]));
            }
            assert forall|i: int| 0 <= i < q.bi.len() implies #[trigger] mvec_s(q.ai, sol.x)[i]
                <= q.bi[i] + r.prim by {
                let j = q.be.len() + i;
                lemma_peak(gap, gap.len(), j);
                assert(in_box(p, j, next.z[j]));
            }
            assert(sol.lambda_eq + sol.lambda_iq =~= next.y);
            assert forall|i: int|
                0 <= i < q.bi.len() && #[trigger] sol.lambda_iq[i] > 0real implies mvec_s(
                q.ai,
                sol.x,
            )[i] >= q.bi[i] - r.prim by {
                let j = q.be.len() + i;
                lemma_peak(gap, gap.len(), j);
                assert(next.y[j] > 0real);
            }
            assert(optimal_at(p, sol, next));
        } else {
            if (iter + 1) % 3 == 0 {
                lemma_admm_run(p, retune_s(p, next, r), (iter + 1) as usize);
            } else {
                lemma_admm_run(p, next, (iter + 1) as usize);
            }
        }
    }
}

/// The splitting method in exact arithmetic: the answer has the lengths of the
/// problem, no multiplier of an inequality is negative, and an optimal answer meets constraints, stationarity and
/// complementary slackness within the scaled tolerances; without constraints it
/// is exact.
pub proof fn law_admm(q: Qp<real>, cfg: QpConfig<real>)
    requires
        q.wf(),
    ensures
        ({
            let sol = admm_s(q, cfg);
            &&& sol.x.len() == q.n()
            &&& sol.lambda_eq.len() == q.be.len()
            &&& sol.lambda_iq.len() == q.bi.len()
            &&& forall|i: int| 0 <= i < sol.lambda_iq.len() ==> #[trigger] sol.lambda_iq[i] >= 0real
            &&& sol.status == QpStatus::Optimal ==> if q.be.len() + q.bi.len() == 0 {
                mvec_s(q.h, sol.x) == vneg_s(q.c)
            } else {
                exists|e: AdmmState<real>| optimal_at(admm_ctx_s(q, cfg), sol, e)
            }
        }),
{
    if q.be.len() + q.bi.len() == 0 {
        match real::cholesky_s(q.h) {
            Some(l) => {
                assert(is_cholesky(l, q.h));
                law_cholesky_rows(l, q.h);
                law_chol_solve(l.rows, vneg_s(q.c));
            },
            None => {},
        }
    } else {
        let p = admm_ctx_s(q, cfg);
        let m = admm_system_s(p, lit_s::<real>(10, 0));
        match real::cholesky_s(m) {
            Some(l) => {
                assert(is_cholesky(l, m));
                lemma_ranges();
                lemma_admm_run(p, admm_start_s(p, l), 0);
            },
            None => {},
        }
    }
}

/// Whatever the arithmetic: at most the allowed iterations are reported.
pub proof fn law_admm_iterations<T: DenseKernels>(p: AdmmCtx<T>, st: AdmmState<T>, iter: usize)
    requires
        iter <= p.cfg.max_iters,
    ensures
        admm_run_s(p, st, iter).iterations <= p.cfg.max_iters,
    decreases p.cfg.max_iters - iter,
{
    if iter < p.cfg.max_iters {
        let next = admm_move_s(p, st);
        let r = residuals_s(p, next);
        if !admm_done_s(r, p.cfg) {
            if (iter + 1) % 3 == 0 {
                law_admm_iterations(p, retune_s(p, next, r), (iter + 1) as usize);
            } else {
                law_admm_iterations(p, next, (iter + 1) as usize);
            }
        }
    }
}

/// The peak of a vector is its largest magnitude: no entry exceeds it, and one
/// reaches it, unless there is none.
pub proof fn law_peak(a: Seq<real>)
    ensures
        a.len() == 0 ==> peak_s(a) == 0real,
        forall|i: int| 0 <= i < a.len() ==> -peak_s(a) <= #[trigger] a[i] <= peak_s(a),
        a.len() > 0 ==> exists|i: int|
            0 <= i < a.len() && (#[trigger] a[i] == peak_s(a) || a[i] == -peak_s(a)),
{
    assert forall|i: int| 0 <= i < a.len() implies -peak_s(a) <= #[trigger] a[i] <= peak_s(a) by {
        lemma_peak(a, a.len(), i);
    }
    if a.len() > 0 {
        lemma_peak_reached(a, a.len());
    }
}

proof fn lemma_peak_reached(a: Seq<real>, n: nat)
    requires
        0 < n <= a.len(),
    ensures
        exists|i: int| 0 <= i < n && (#[trigger] a[i]).abs_s() == peak_upto_s(a, n),
    decreases n,
{
    if n == 1 {
        assert(a[0].abs_s() == peak_upto_s(a, n));
    } else {
        lemma_peak_reached(a, (n - 1) as nat);
        let i = choose|i: int|
            0 <= i < n - 1 && (#[trigger] a[i]).abs_s() == peak_upto_s(a, (n - 1) as nat);
        if a[n - 1].abs_s() <= peak_upto_s(a, (n - 1) as nat) {
            assert(a[i].abs_s() == peak_upto_s(a, n));
        } else {
            assert(a[n - 1].abs_s() == peak_upto_s(a, n));
        }
    }
}

} // verus!
