//! When a point can be pushed into the inequalities, and what a failure means.

use vstd::prelude::*;

use crate::active_set::{
    active_set_s, as_run_s, as_step_s, context_s, eq_factor_s, seeded_s, AsCtx, AsNext, AsState,
};
use crate::active_start::{
    active_at_s, eq_off_s, feasible_s, initial_feasible_s, iq_feasible_s, iq_off_s, prepare_s,
    projector_s, push_into_s, push_run_s, push_step_s, start_s, worst_s,
};
use crate::dense::{
    dot_s, identity_s, mmul_s, mvec_s, norm_s, norm_sq_s, transpose_s, vscale_s, vsub_s, vzeros_s,
    Mat,
};
use crate::exact::{
    lemma_adjoint, lemma_dot_add, lemma_dot_scale, lemma_dot_zero, lemma_identity_mvec,
    lemma_madd_mvec, lemma_mmul_mvec, lemma_mvec_zero,
};
use crate::kernels::{is_regular, is_solution, lu_vec_s, DenseKernels};
use crate::laws::factor::lemma_lit_pos;
use crate::laws::kkt::lemma_lu_vec;
use crate::laws::null_space::law_regular_solvable;
use crate::laws::rotation::lemma_over;
use crate::laws::start::{law_initial_feasible, law_projector, lemma_worst};
use crate::qp::{row_dot_s, Qp, QpConfig, QpStatus, Warm};
use crate::scalar::{is_root, lit_s, Arith};

verus! {

/// `u` is the component of `v` in the null space of `a`: `a` maps it to zero,
/// and the rest of `v` is a combination of the rows of `a`.
pub open spec fn null_part(a: Mat<real>, v: Seq<real>, u: Seq<real>) -> bool {
    &&& u.len() == v.len()
    &&& mvec_s(a, u) == vzeros_s::<real>(a.nrows())
    &&& exists|w: Seq<real>| w.len() == a.nrows() && #[trigger] mvec_s(transpose_s(a), w) == vsub_s(
        v,
        u,
    )
}

/// The projector is the orthogonal one onto the null space of the equalities:
/// it takes every vector to its component there, and leaves what lies there
/// already. There is one wherever the rows of the equalities are independent.
pub proof fn law_projector_complete(ae: Mat<real>, v: Seq<real>)
    requires
        ae.wf(),
        v.len() == ae.ncols(),
    ensures
        projector_s(ae) matches Some(p) ==> {
            &&& p.shaped(ae.ncols(), ae.ncols())
            &&& null_part(ae, v, mvec_s(p, v))
            &&& mvec_s(ae, v) == vzeros_s::<real>(ae.nrows()) ==> mvec_s(p, v) == v
            &&& dot_s(v, mvec_s(p, v)) == norm_sq_s(mvec_s(p, v))
        },
        is_regular(mmul_s(ae, transpose_s(ae))) ==> projector_s(ae) is Some,
        ae.nrows() == 0 ==> projector_s(ae) is Some,
{
    let at = transpose_s(ae);
    let g = mmul_s(ae, at);
    let id = identity_s::<real>(ae.nrows());
    if ae.nrows() > 0 && is_regular(g) {
        law_regular_solvable(g, id);
    }
    match projector_s(ae) {
        None => {},
        Some(p) => {
            law_projector(ae, p, v);
            let u = mvec_s(p, v);
            let w = if ae.nrows() > 0 {
                mvec_s(real::lu_solve_s(g, id)->Some_0, mvec_s(ae, v))
            } else {
                Seq::empty()
            };
            if ae.nrows() > 0 {
                let inv = real::lu_solve_s(g, id)->Some_0;
                assert(is_solution(inv, g, id));
                let b = mmul_s(mmul_s(at, inv), ae);
                lemma_madd_mvec(identity_s::<real>(ae.ncols()), b, v);
                lemma_identity_mvec(v);
                lemma_mmul_mvec(mmul_s(at, inv), ae, v);
                lemma_mmul_mvec(at, inv, mvec_s(ae, v));
                assert(mvec_s(at, w) =~= vsub_s(v, u));
                if mvec_s(ae, v) == vzeros_s::<real>(ae.nrows()) {
                    lemma_mvec_zero(inv);
                    lemma_mvec_zero(at);
                    assert(u =~= v);
                }
            } else {
                lemma_identity_mvec(v);
                lemma_mvec_zero(at);
                assert(w =~= vzeros_s::<real>(0));
                assert(mvec_s(at, w) =~= vsub_s(v, u));
            }
            assert(null_part(ae, v, u));
            lemma_adjoint(ae, u, w);
            lemma_dot_zero(w, ae.nrows());
            lemma_dot_add(u, v, u);
            crate::exact::lemma_dot_comm(u, v);
        },
    }
}

/// Row `i` is the one that `x` breaks most, and it breaks it by more than the
/// tolerance.
pub open spec fn most_broken(q: Qp<real>, cfg: QpConfig<real>, x: Seq<real>, i: int) -> bool {
    &&& 0 <= i < q.bi.len()
    &&& row_dot_s(q.ai, i, x) - q.bi[i] > cfg.feasibility_tol
    &&& forall|j: int|
        0 <= j < q.bi.len() ==> #[trigger] row_dot_s(q.ai, j, x) - q.bi[j] <= row_dot_s(q.ai, i, x)
            - q.bi[i]
}

/// The squared length of row `i` in the null space that `p` projects onto.
pub open spec fn room_of_s(q: Qp<real>, p: Mat<real>, i: int) -> real {
    norm_sq_s(mvec_s(p, q.ai.rows[i]))
}

/// `y` is `x`, moved along the component of a most broken row in the null space
/// of the equalities until the row is met exactly.
pub open spec fn corrects(
    q: Qp<real>,
    p: Mat<real>,
    cfg: QpConfig<real>,
    x: Seq<real>,
    y: Seq<real>,
) -> bool {
    exists|i: int, t: real|
        #![trigger row_dot_s(q.ai, i, y), vscale_s(t, mvec_s(p, q.ai.rows[i]))]
        {
            &&& most_broken(q, cfg, x, i)
            &&& room_of_s(q, p, i) >= lit_s::<real>(1, -15)
            &&& y == vsub_s(x, vscale_s(t, mvec_s(p, q.ai.rows[i])))
            &&& row_dot_s(q.ai, i, y) == q.bi[i]
        }
}

/// A run of corrections.
pub open spec fn corrections(
    q: Qp<real>,
    p: Mat<real>,
    cfg: QpConfig<real>,
    path: Seq<Seq<real>>,
) -> bool {
    forall|j: int|
        0 <= j < path.len() - 1 ==> corrects(q, p, cfg, #[trigger] path[j], path[j + 1])
}

/// A most broken row has no room in the null space.
pub open spec fn stuck(q: Qp<real>, p: Mat<real>, cfg: QpConfig<real>, x: Seq<real>) -> bool {
    exists|i: int| #[trigger] most_broken(q, cfg, x, i) && room_of_s(q, p, i) < lit_s::<real>(1, -15)
}

/// One correction, or its verdict.
proof fn lemma_push_step(x: Seq<real>, p: Mat<real>, q: Qp<real>, cfg: QpConfig<real>)
    requires
        q.wf(),
        x.len() == q.n(),
        projector_s(q.ae) == Some(p),
    ensures
        match push_step_s(x, p, q.ai, q.bi, cfg) {
            Ok(y) => y.len() == q.n() && corrects(q, p, cfg, x, y),
            Err(verdict) => if verdict {
                iq_feasible_s(q, x, cfg)
            } else {
                stuck(q, p, cfg, x)
            },
        },
{
    let vals = mvec_s(q.ai, x);
    lemma_worst(vals, q.bi, q.bi.len());
    lemma_lit_pos(1, -15);
    match worst_s(vals, q.bi, q.bi.len()) {
        None => {},
        Some(w) => {
            let i = w.1;
            assert(forall|j: int|
                0 <= j < q.bi.len() ==> #[trigger] row_dot_s(q.ai, j, x) - q.bi[j] == vals[j]
                    - q.bi[j]);
            if w.0 <= cfg.feasibility_tol {
                assert forall|j: int| 0 <= j < q.bi.len() implies !#[trigger] iq_off_s(
                    q,
                    x,
                    j,
                    cfg,
                ) by {
                    assert(vals[j] - q.bi[j] <= w.0);
                }
            } else {
                assert(most_broken(q, cfg, x, i)) by {
                    assert forall|j: int| 0 <= j < q.bi.len() implies #[trigger] row_dot_s(
                        q.ai,
                        j,
                        x,
                    ) - q.bi[j] <= row_dot_s(q.ai, i, x) - q.bi[i] by {
                        assert(vals[j] - q.bi[j] <= w.0);
                    }
                }
                let a = q.ai.rows[i];
                let pa = mvec_s(p, a);
                let d = dot_s(a, pa);
                law_projector_complete(q.ae, a);
                assert(d == room_of_s(q, p, i));
                if d >= lit_s::<real>(1, -15) {
                    let t = w.0 / d;
                    let y = vsub_s(x, vscale_s(t, pa));
                    lemma_over(w.0, d);
                    lemma_dot_add(a, x, vscale_s(t, pa));
                    lemma_dot_scale(a, t, pa);
                    assert(t * d == d * t) by (nonlinear_arith);
                    assert(row_dot_s(q.ai, i, y) == q.bi[i]);
                    assert(y == vsub_s(x, vscale_s(t, mvec_s(p, q.ai.rows[i]))));
                }
            }
        },
    }
}

proof fn lemma_push_path(
    x: Seq<real>,
    p: Mat<real>,
    q: Qp<real>,
    cfg: QpConfig<real>,
    k: nat,
) -> (path: Seq<Seq<real>>)
    requires
        q.wf(),
        x.len() == q.n(),
        projector_s(q.ae) == Some(p),
    ensures
        1 <= path.len() <= k + 1,
        path[0] == x,
        corrections(q, p, cfg, path),
        ({
            let r = push_run_s(x, p, q.ai, q.bi, cfg, k);
            &&& path.last() == r.0
            &&& r.1 ==> iq_feasible_s(q, r.0, cfg)
            &&& !r.1 ==> path.len() == k + 1 || stuck(q, p, cfg, r.0)
        }),
    decreases k,
{
    if k == 0 {
        seq![x]
    } else {
        lemma_push_step(x, p, q, cfg);
        match push_step_s(x, p, q.ai, q.bi, cfg) {
            Ok(y) => {
                let rest = lemma_push_path(y, p, q, cfg, (k - 1) as nat);
                let path = seq![x] + rest;
                assert forall|j: int| 0 <= j < path.len() - 1 implies corrects(
                    q,
                    p,
                    cfg,
                    #[trigger] path[j],
                    path[j + 1],
                ) by {
                    if j > 0 {
                        assert(path[j] == rest[j - 1]);
                        assert(path[j + 1] == rest[j - 1 + 1]);
                    }
                }
                path
            },
            Err(_) => seq![x],
        }
    }
}

/// What pushing into the inequalities does: a run of at most two hundred
/// corrections, each of which takes up the row that is broken most and moves the
/// point within the null space of the equalities until that row is met. It ends
/// inside, unless the corrections are spent, or the row that is broken most has
/// no room in the null space, or the equalities are dependent.
pub proof fn law_push_corrects(x: Seq<real>, q: Qp<real>, cfg: QpConfig<real>)
    requires
        q.wf(),
        x.len() == q.n(),
    ensures
        ({
            let r = push_into_s(x, q, cfg);
            &&& r.1 ==> iq_feasible_s(q, r.0, cfg)
            &&& q.bi.len() == 0 ==> r == (x, true)
            &&& !r.1 && is_regular(mmul_s(q.ae, transpose_s(q.ae))) ==> projector_s(q.ae) is Some
            &&& projector_s(q.ae) matches Some(p) ==> exists|path: Seq<Seq<real>>|
                {
                    &&& 1 <= path.len() <= 201
                    &&& path[0] == x
                    &&& path.last() == r.0
                    &&& #[trigger] corrections(q, p, cfg, path)
                    &&& !r.1 ==> path.len() == 201 || stuck(q, p, cfg, r.0)
                }
        }),
{
    law_projector_complete(q.ae, vzeros_s::<real>(q.n()));
    match projector_s(q.ae) {
        None => {},
        Some(p) => {
            if q.bi.len() == 0 {
                let path = seq![x];
                assert(corrections(q, p, cfg, path));
            } else {
                let path = lemma_push_path(x, p, q, cfg, 200);
                assert(corrections(q, p, cfg, path));
            }
        },
    }
}

/// How many of the first `n` inequalities `x` breaks by more than the tolerance.
pub open spec fn broken_s(q: Qp<real>, cfg: QpConfig<real>, x: Seq<real>, n: nat) -> nat
    decreases n,
{
    if n == 0 {
        0
    } else {
        broken_s(q, cfg, x, (n - 1) as nat) + (if row_dot_s(q.ai, n - 1, x) > q.bi[n - 1]
            + cfg.feasibility_tol {
            1nat
        } else {
            0nat
        })
    }
}

proof fn lemma_broken(q: Qp<real>, cfg: QpConfig<real>, x: Seq<real>, y: Seq<real>, i: int, n: nat)
    requires
        0 <= i,
        row_dot_s(q.ai, i, x) > q.bi[i] + cfg.feasibility_tol,
        row_dot_s(q.ai, i, y) <= q.bi[i] + cfg.feasibility_tol,
        forall|j: int|
            0 <= j < n && j != i ==> #[trigger] row_dot_s(q.ai, j, y) == row_dot_s(q.ai, j, x),
    ensures
        broken_s(q, cfg, x, n) == broken_s(q, cfg, y, n) + (if i < n {
            1nat
        } else {
            0nat
        }),
    decreases n,
{
    if n > 0 {
        lemma_broken(q, cfg, x, y, i, (n - 1) as nat);
        if i != n - 1 {
            assert(row_dot_s(q.ai, n - 1, y) == row_dot_s(q.ai, n - 1, x));
        }
    }
}

/// The rows do not work against each other in the null space that `p` projects
/// onto.
pub open spec fn apart(q: Qp<real>, p: Mat<real>) -> bool {
    forall|i: int, j: int|
        #![trigger q.ai.rows[i], q.ai.rows[j]]
        0 <= i < q.bi.len() && 0 <= j < q.bi.len() && i != j ==> dot_s(
            q.ai.rows[j],
            mvec_s(p, q.ai.rows[i]),
        ) == 0real
}

/// Every row that `x` breaks has room in the null space.
pub open spec fn movable(q: Qp<real>, p: Mat<real>, cfg: QpConfig<real>, x: Seq<real>) -> bool {
    forall|i: int|
        0 <= i < q.bi.len() && #[trigger] row_dot_s(q.ai, i, x) > q.bi[i] + cfg.feasibility_tol
            ==> room_of_s(q, p, i) >= lit_s::<real>(1, -15)
}

proof fn lemma_push_apart(x: Seq<real>, p: Mat<real>, q: Qp<real>, cfg: QpConfig<real>, k: nat)
    requires
        q.wf(),
        x.len() == q.n(),
        projector_s(q.ae) == Some(p),
        cfg.feasibility_tol >= 0real,
        apart(q, p),
        movable(q, p, cfg, x),
        broken_s(q, cfg, x, q.bi.len()) < k,
    ensures
        push_run_s(x, p, q.ai, q.bi, cfg, k).1,
    decreases k,
{
    lemma_push_step(x, p, q, cfg);
    match push_step_s(x, p, q.ai, q.bi, cfg) {
        Ok(y) => {
            let (i, t) = choose|i: int, t: real|
                #![trigger row_dot_s(q.ai, i, y), vscale_s(t, mvec_s(p, q.ai.rows[i]))]
                {
                    &&& most_broken(q, cfg, x, i)
                    &&& room_of_s(q, p, i) >= lit_s::<real>(1, -15)
                    &&& y == vsub_s(x, vscale_s(t, mvec_s(p, q.ai.rows[i])))
                    &&& row_dot_s(q.ai, i, y) == q.bi[i]
                };
            let pa = mvec_s(p, q.ai.rows[i]);
            law_projector_complete(q.ae, q.ai.rows[i]);
            assert forall|j: int| 0 <= j < q.bi.len() && j != i implies #[trigger] row_dot_s(
                q.ai,
                j,
                y,
            ) == row_dot_s(q.ai, j, x) by {
                let a = q.ai.rows[j];
                lemma_dot_add(a, x, vscale_s(t, pa));
                lemma_dot_scale(a, t, pa);
                assert(dot_s(q.ai.rows[j], mvec_s(p, q.ai.rows[i])) == 0real);
                assert(t * 0real == 0real) by (nonlinear_arith);
            }
            lemma_broken(q, cfg, x, y, i, q.bi.len());
            assert forall|j: int|
                0 <= j < q.bi.len() && #[trigger] row_dot_s(q.ai, j, y) > q.bi[j]
                    + cfg.feasibility_tol implies room_of_s(q, p, j) >= lit_s::<real>(1, -15) by {
                assert(j != i);
                assert(row_dot_s(q.ai, j, x) > q.bi[j] + cfg.feasibility_tol);
            }
            lemma_push_apart(y, p, q, cfg, (k - 1) as nat);
        },
        Err(verdict) => {
            if !verdict {
                let i = choose|i: int| #[trigger] most_broken(q, cfg, x, i) && room_of_s(q, p, i)
                    < lit_s::<real>(1, -15);
                assert(row_dot_s(q.ai, i, x) > q.bi[i] + cfg.feasibility_tol);
            }
        },
    }
}

/// A point that breaks fewer than two hundred inequalities, each with room in
/// the null space of the equalities and none against another there, is pushed
/// inside.
pub proof fn law_push_succeeds(x: Seq<real>, q: Qp<real>, cfg: QpConfig<real>, p: Mat<real>)
    requires
        q.wf(),
        x.len() == q.n(),
        projector_s(q.ae) == Some(p),
        cfg.feasibility_tol >= 0real,
        apart(q, p),
        movable(q, p, cfg, x),
        broken_s(q, cfg, x, q.bi.len()) < 200,
    ensures
        push_into_s(x, q, cfg).1,
        iq_feasible_s(q, push_into_s(x, q, cfg).0, cfg),
{
    if q.bi.len() > 0 {
        lemma_push_apart(x, p, q, cfg, 200);
    }
    law_push_corrects(x, q, cfg);
}

/// An exact equality counts as met.
pub proof fn lemma_met(q: Qp<real>, x: Seq<real>, cfg: QpConfig<real>)
    requires
        q.wf(),
        cfg.feasibility_tol >= 0real,
        mvec_s(q.ae, x) == q.be,
    ensures
        !eq_off_s(q, x, cfg),
{
    let gap = vsub_s(mvec_s(q.ae, x), q.be);
    assert(gap =~= vzeros_s::<real>(q.be.len()));
    lemma_dot_zero(gap, gap.len());
    let s = norm_sq_s(gap);
    assert(is_root(s, 0real)) by {
        assert(0real * 0real == 0real) by (nonlinear_arith);
    }
    let v = norm_s(gap);
    assert(is_root(s, v));
    assert(v == 0real) by (nonlinear_arith)
        requires
            v * v == 0real,
    ;
    let (t, m) = (cfg.feasibility_tol, 1real + norm_s(q.be).max_s(1real));
    assert(t * m >= 0real) by (nonlinear_arith)
        requires
            t >= 0real,
            m >= 0real,
    ;
}

/// A cold active-set solve of a problem with independent equalities, whose
/// inequalities have room in the null space of the equalities and do not work
/// against each other there, is never called infeasible.
pub proof fn law_cold_start(q: Qp<real>, cfg: QpConfig<real>, p: Mat<real>)
    requires
        q.wf(),
        q.be.len() > 0,
        q.bi.len() < 200,
        cfg.feasibility_tol >= 0real,
        is_regular(mmul_s(q.ae, transpose_s(q.ae))),
        projector_s(q.ae) == Some(p),
        apart(q, p),
        forall|i: int|
            0 <= i < q.bi.len() ==> #[trigger] room_of_s(q, p, i) >= lit_s::<real>(1, -15),
    ensures
        feasible_s(q, initial_feasible_s(q, cfg), cfg),
        mvec_s(q.ae, initial_feasible_s(q, cfg)) == q.be,
        active_set_s(q, None, cfg, None).sol.status != QpStatus::Infeasible,
{
    let at = transpose_s(q.ae);
    let g = mmul_s(q.ae, at);
    law_regular_solvable(g, crate::kernels::as_col_s(q.be));
    law_initial_feasible(q, cfg);
    let y = lu_vec_s(g, q.be)->Some_0;
    lemma_lu_vec(g, q.be, y);
    let x = mvec_s(at, y);
    lemma_few(q, cfg, x, q.bi.len());
    assert(movable(q, p, cfg, x)) by {
        assert forall|i: int|
            0 <= i < q.bi.len() && #[trigger] row_dot_s(q.ai, i, x) > q.bi[i]
                + cfg.feasibility_tol implies room_of_s(q, p, i) >= lit_s::<real>(1, -15) by {}
    }
    law_push_succeeds(x, q, cfg, p);
    let start = initial_feasible_s(q, cfg);
    lemma_met(q, start, cfg);
    lemma_infeasible(q, None, cfg, None);
}

/// The iterations never end infeasible.
proof fn lemma_run_status(ctx: AsCtx<real>, st: AsState<real>, iter: usize)
    ensures
        as_run_s(ctx, st, iter).sol.status != QpStatus::Infeasible,
    decreases ctx.cfg.max_iters - iter,
{
    if iter < ctx.cfg.max_iters {
        match as_step_s(ctx, st, iter) {
            AsNext::Go(next) => {
                lemma_run_status(ctx, next, (iter + 1) as usize);
            },
            AsNext::Stop(_) => {},
        }
    }
}

proof fn lemma_infeasible(
    q: Qp<real>,
    x0: Option<Seq<real>>,
    cfg: QpConfig<real>,
    prior: Option<Warm<real>>,
)
    ensures
        active_set_s(q, x0, cfg, prior).sol.status == QpStatus::Infeasible <==> prepare_s(
            q.h,
        ) is Some && !feasible_s(q, start_s(q, x0, cfg, prior).0, cfg),
{
    match prepare_s(q.h) {
        None => {},
        Some(pre) => {
            let (x, seed) = start_s(q, x0, cfg, prior);
            let ctx = context_s(q, cfg, pre.0, pre.1);
            match eq_factor_s(q, ctx.chol, q.be.len()) {
                None => {},
                Some(f) => {
                    let rows = match seed {
                        Some(rows) => rows,
                        None => active_at_s(q, x, q.bi.len(), cfg),
                    };
                    let (fac, ws) = seeded_s(q, ctx.chol, f, rows, rows.len());
                    lemma_run_status(ctx, AsState { x, fac, ws }, 0);
                },
            }
        },
    }
}

/// `x` meets the equalities within the tolerance, relative to their right-hand
/// side, and breaks no inequality by more than the tolerance.
pub open spec fn meets(q: Qp<real>, cfg: QpConfig<real>, x: Seq<real>) -> bool {
    &&& q.be.len() > 0 ==> norm_s(vsub_s(mvec_s(q.ae, x), q.be)) <= cfg.feasibility_tol * (1real + (
    if norm_s(q.be) > 1real {
        norm_s(q.be)
    } else {
        1real
    }))
    &&& forall|i: int|
        0 <= i < q.bi.len() ==> #[trigger] row_dot_s(q.ai, i, x) <= q.bi[i] + cfg.feasibility_tol
}

/// A cold solve from a given point whose Hessian factors calls the problem
/// infeasible exactly where the given point does not meet the constraints within
/// the tolerance.
pub proof fn law_given_start(q: Qp<real>, x: Seq<real>, cfg: QpConfig<real>)
    requires
        q.wf(),
        x.len() == q.n(),
        prepare_s(q.h) is Some,
    ensures
        active_set_s(q, Some(x), cfg, None).sol.status == QpStatus::Infeasible <==> !meets(
            q,
            cfg,
            x,
        ),
{
    lemma_infeasible(q, Some(x), cfg, None);
    if feasible_s(q, x, cfg) {
        assert forall|i: int| 0 <= i < q.bi.len() implies #[trigger] row_dot_s(q.ai, i, x) <= q.bi[i]
            + cfg.feasibility_tol by {
            assert(!iq_off_s(q, x, i, cfg));
        }
    }
    if meets(q, cfg, x) {
        assert forall|i: int| 0 <= i < q.bi.len() implies !#[trigger] iq_off_s(q, x, i, cfg) by {
            assert(row_dot_s(q.ai, i, x) <= q.bi[i] + cfg.feasibility_tol);
        }
    }
}

proof fn lemma_few(q: Qp<real>, cfg: QpConfig<real>, x: Seq<real>, n: nat)
    ensures
        broken_s(q, cfg, x, n) <= n,
    decreases n,
{
    if n > 0 {
        lemma_few(q, cfg, x, (n - 1) as nat);
    }
}

/// A cold solve without equalities whose Hessian factors starts at the origin: it
/// calls the problem infeasible exactly where the origin breaks an inequality by
/// more than the tolerance.
pub proof fn law_origin_start(q: Qp<real>, cfg: QpConfig<real>)
    requires
        q.wf(),
        q.be.len() == 0,
        prepare_s(q.h) is Some,
    ensures
        active_set_s(q, None, cfg, None).sol.status == QpStatus::Infeasible <==> exists|i: int|
            0 <= i < q.bi.len() && 0real > #[trigger] q.bi[i] + cfg.feasibility_tol,
{
    let x = vzeros_s::<real>(q.n());
    lemma_infeasible(q, None, cfg, None);
    assert forall|i: int| 0 <= i < q.bi.len() implies (#[trigger] iq_off_s(q, x, i, cfg) <==> 0real
        > q.bi[i] + cfg.feasibility_tol) by {
        lemma_dot_zero(q.ai.rows[i], q.n());
    }
    if !feasible_s(q, x, cfg) {
        let i = choose|i: int| 0 <= i < q.bi.len() && #[trigger] iq_off_s(q, x, i, cfg);
        assert(0real > q.bi[i] + cfg.feasibility_tol);
    }
    if exists|i: int| 0 <= i < q.bi.len() && 0real > #[trigger] q.bi[i] + cfg.feasibility_tol {
        let i = choose|i: int|
            0 <= i < q.bi.len() && 0real > #[trigger] q.bi[i] + cfg.feasibility_tol;
        assert(iq_off_s(q, x, i, cfg));
    }
}

} // verus!
