//! Laws of the first point of the active-set method, in exact arithmetic.

use vstd::prelude::*;

use crate::active_start::{
    eq_off_s, fits_s, initial_feasible_s, iq_feasible_s, iq_off_s, projector_s, push_into_s,
    push_run_s, push_step_s, reproject_s, warm_start_s, worst_s,
};
use crate::dense::{identity_s, mmul_s, mvec_s, transpose_s, vscale_s, vsub_s, vzeros_s, Mat};
use crate::exact::{
    lemma_identity_mvec, lemma_madd_mvec, lemma_mmul_mvec, lemma_mvec_add, lemma_mvec_scale,
};
use crate::kernels::{is_solution, lu_vec_s, DenseKernels};
use crate::laws::kkt::lemma_lu_vec;
use crate::laws::working_set::lemma_push_run_len;
use crate::qp::{Qp, QpConfig, Warm};
use crate::scalar::Arith;

verus! {

/// The worst violation is the largest.
pub proof fn lemma_worst(vals: Seq<real>, bi: Seq<real>, n: nat)
    ensures
        match worst_s(vals, bi, n) {
            None => n == 0,
            Some(w) => 0 <= w.1 < n && w.0 == vals[w.1] - bi[w.1] && forall|i: int|
                0 <= i < n ==> #[trigger] vals[i] - bi[i] <= w.0,
        },
    decreases n,
{
    if n > 0 {
        lemma_worst(vals, bi, (n - 1) as nat);
    }
}

/// A run that says it ended inside is inside.
proof fn lemma_push_run_inside(x: Seq<real>, p: Mat<real>, q: Qp<real>, cfg: QpConfig<real>, k: nat)
    requires
        q.wf(),
        x.len() == q.n(),
    ensures
        ({
            let r = push_run_s(x, p, q.ai, q.bi, cfg, k);
            r.1 ==> iq_feasible_s(q, r.0, cfg)
        }),
    decreases k,
{
    if k > 0 {
        let vals = mvec_s(q.ai, x);
        lemma_worst(vals, q.bi, q.bi.len());
        match push_step_s(x, p, q.ai, q.bi, cfg) {
            Ok(y) => {
                lemma_push_run_inside(y, p, q, cfg, (k - 1) as nat);
            },
            Err(verdict) => {
                if verdict {
                    assert forall|i: int| 0 <= i < q.bi.len() implies !#[trigger] iq_off_s(
                        q,
                        x,
                        i,
                        cfg,
                    ) by {
                        assert(vals[i] - q.bi[i] <= cfg.feasibility_tol);
                    }
                }
            },
        }
    }
}

/// The projector maps into the null space of the equalities.
pub proof fn law_projector(ae: Mat<real>, p: Mat<real>, v: Seq<real>)
    requires
        ae.wf(),
        projector_s(ae) == Some(p),
        v.len() == ae.ncols(),
    ensures
        mvec_s(p, v).len() == ae.ncols(),
        mvec_s(ae, mvec_s(p, v)) == vzeros_s::<real>(ae.nrows()),
{
    if ae.nrows() > 0 {
        let at = transpose_s(ae);
        let g = mmul_s(ae, at);
        let id = identity_s::<real>(ae.nrows());
        let inv = real::lu_solve_s(g, id)->0;
        assert(is_solution(inv, g, id));
        let b = mmul_s(mmul_s(at, inv), ae);
        lemma_madd_mvec(identity_s::<real>(ae.ncols()), b, v);
        lemma_identity_mvec(v);
        let av = mvec_s(ae, v);
        lemma_mmul_mvec(mmul_s(at, inv), ae, v);
        lemma_mmul_mvec(at, inv, av);
        let w = mvec_s(inv, av);
        lemma_mvec_add(ae, v, mvec_s(at, w));
        lemma_mmul_mvec(ae, at, w);
        lemma_mmul_mvec(g, inv, av);
        lemma_identity_mvec(av);
        assert(mvec_s(ae, mvec_s(p, v)) =~= vzeros_s::<real>(ae.nrows()));
    } else {
        assert(mvec_s(ae, mvec_s(p, v)) =~= vzeros_s::<real>(ae.nrows()));
    }
}

proof fn lemma_push_run_keeps(x: Seq<real>, p: Mat<real>, q: Qp<real>, cfg: QpConfig<real>, k: nat)
    requires
        q.wf(),
        x.len() == q.n(),
        projector_s(q.ae) == Some(p),
    ensures
        mvec_s(q.ae, push_run_s(x, p, q.ai, q.bi, cfg, k).0) == mvec_s(q.ae, x),
    decreases k,
{
    if k > 0 {
        lemma_worst(mvec_s(q.ai, x), q.bi, q.bi.len());
        match push_step_s(x, p, q.ai, q.bi, cfg) {
            Ok(y) => {
                lemma_push_run_keeps(y, p, q, cfg, (k - 1) as nat);
                let w = worst_s(mvec_s(q.ai, x), q.bi, q.bi.len())->0;
                let a = q.ai.rows[w.1];
                let pa = mvec_s(p, a);
                let t = w.0 / crate::dense::dot_s(a, pa);
                law_projector(q.ae, p, a);
                lemma_mvec_add(q.ae, x, vscale_s(t, pa));
                lemma_mvec_scale(q.ae, t, pa);
                assert(t * 0real == 0real) by (nonlinear_arith);
                assert(mvec_s(q.ae, y) =~= mvec_s(q.ae, x));
            },
            Err(_) => {},
        }
    }
}

/// Pushing a point into the inequalities never changes what it makes of the
/// equalities, and where it reports success no inequality is broken by more
/// than the tolerance.
pub proof fn law_push_into(x: Seq<real>, q: Qp<real>, cfg: QpConfig<real>)
    requires
        q.wf(),
        x.len() == q.n(),
    ensures
        ({
            let r = push_into_s(x, q, cfg);
            &&& r.0.len() == q.n()
            &&& mvec_s(q.ae, r.0) == mvec_s(q.ae, x)
            &&& r.1 ==> iq_feasible_s(q, r.0, cfg)
        }),
{
    if q.bi.len() > 0 {
        match projector_s(q.ae) {
            None => {},
            Some(p) => {
                lemma_push_run_len(x, p, q.ai, q.bi, cfg, 200);
                lemma_push_run_keeps(x, p, q, cfg, 200);
                lemma_push_run_inside(x, p, q, cfg, 200);
            },
        }
    }
}

/// The first point of a cold start meets the equalities exactly, wherever the
/// normal matrix of the equalities can be solved with.
pub proof fn law_initial_feasible(q: Qp<real>, cfg: QpConfig<real>)
    requires
        q.wf(),
        q.be.len() > 0 ==> lu_vec_s(mmul_s(q.ae, transpose_s(q.ae)), q.be) is Some,
    ensures
        initial_feasible_s(q, cfg).len() == q.n(),
        mvec_s(q.ae, initial_feasible_s(q, cfg)) == q.be,
{
    let x = initial_feasible_s(q, cfg);
    if q.be.len() == 0 {
        assert(mvec_s(q.ae, x) =~= q.be);
    } else {
        let at = transpose_s(q.ae);
        let y = lu_vec_s(mmul_s(q.ae, at), q.be)->0;
        lemma_lu_vec(mmul_s(q.ae, at), q.be, y);
        lemma_mmul_mvec(q.ae, at, y);
        law_push_into(mvec_s(at, y), q, cfg);
    }
}

/// A point that is brought back meets the equalities: exactly where it was
/// moved, else within the tolerance as before.
pub proof fn law_reproject(q: Qp<real>, x: Seq<real>, cfg: QpConfig<real>)
    requires
        q.wf(),
        x.len() == q.n(),
    ensures
        reproject_s(q, x, cfg) matches Some(y) ==> y.len() == q.n() && (if eq_off_s(q, x, cfg) {
            mvec_s(q.ae, y) == q.be
        } else {
            y == x
        }),
{
    if eq_off_s(q, x, cfg) {
        let at = transpose_s(q.ae);
        let gap = vsub_s(mvec_s(q.ae, x), q.be);
        match lu_vec_s(mmul_s(q.ae, at), gap) {
            None => {},
            Some(z) => {
                lemma_lu_vec(mmul_s(q.ae, at), gap, z);
                lemma_mmul_mvec(q.ae, at, z);
                lemma_mvec_add(q.ae, x, mvec_s(at, z));
                let y = vsub_s(x, mvec_s(at, z));
                assert(mvec_s(q.ae, y) =~= q.be);
            },
        }
    }
}

/// A warm start breaks no inequality by more than the tolerance, and meets the
/// equalities exactly unless the stored point met them within the tolerance.
pub proof fn law_warm_start(q: Qp<real>, cfg: QpConfig<real>, w: Warm<real>)
    requires
        q.wf(),
    ensures
        warm_start_s(q, cfg, Some(w)) matches Some(s) ==> {
            &&& iq_feasible_s(q, s.0, cfg)
            &&& if eq_off_s(q, w.x->0, cfg) {
                mvec_s(q.ae, s.0) == q.be
            } else {
                mvec_s(q.ae, s.0) == mvec_s(q.ae, w.x->0)
            }
        },
{
    if fits_s(q, w) {
        law_reproject(q, w.x->0, cfg);
        match reproject_s(q, w.x->0, cfg) {
            None => {},
            Some(y) => {
                law_push_into(y, q, cfg);
            },
        }
    }
}

} // verus!
