//! What a level of the hierarchy leaves free, and what it makes of the freedom
//! that it was left.

use vstd::prelude::*;

use crate::dense::{
    dot_s, identity_s, mmul_s, mvec_s, norm_sq_s, slice_s, transpose_s, vadd_s, vsub_s, vzeros_s,
    Mat,
};
use crate::exact::{
    lemma_adjoint, lemma_dot_add, lemma_dot_comm, lemma_identity_mvec, lemma_mmul_mvec,
    lemma_mvec_add, lemma_norm_sq_nonneg,
};
use crate::ho_qp::{ho_args_s, ho_d_s, ho_f_s, ho_level_s, ho_next_s, Anchor, HoState};
use crate::kernels::{is_null_basis, is_regular, DenseKernels};
use crate::laws::hierarchy::{
    answer_fits, answers_fit, budget_met, law_budget_accumulates, law_budget_constraints,
    law_budget_cost, law_level_constraints, law_level_cost, law_strict_priority, lemma_upto_wf,
};
use crate::laws::kkt::lemma_half;
use crate::laws::null_space::law_null_space;
use crate::laws::task::{below, cost_s, keeps, residual_s};
use crate::qp::{objective_s, solve_qp_s, QpArgs, QpStatus, Sol, Warm};
use crate::scalar::{lit_s, Arith};
use crate::solve::{
    accumulated_s, budget_args_s, budget_upto_s, levels_ok_s, null_space_upto_s, prior_s, qp_cfg_s,
    rho_s, widened_s, SolveConfig,
};
use crate::task::Tsk;

verus! {

/// `v` is in the range of `z`.
pub open spec fn reaches(z: Mat<real>, v: Seq<real>) -> bool {
    exists|w: Seq<real>| w.len() == z.ncols() && #[trigger] mvec_s(z, w) == v
}

/// The basis that a level leaves is complete: a direction stays free exactly
/// where it was free before and the level's equality does not see it. The
/// columns of the basis stay independent.
pub proof fn law_level_freedom(st: HoState<real>, t: Tsk<real>, sol: Sol<real>, v: Seq<real>)
    requires
        st.wf(),
        t.wf(),
        t.n() == st.n(),
        v.len() == st.n(),
    ensures
        reaches(ho_next_s(st, t, sol).z, v) <==> reaches(st.z, v) && mvec_s(t.a, v)
            == vzeros_s::<real>(t.b.len()),
        is_regular(st.z) ==> is_regular(ho_next_s(st, t, sol).z),
        ho_next_s(st, t, sol).z.shaped(st.n(), ho_next_s(st, t, sol).z.ncols()),
{
    let next = ho_next_s(st, t, sol);
    if t.a.nrows() > 0 {
        let az = mmul_s(t.a, st.z);
        let b = real::null_space_s(az);
        law_null_space(az);
        assert(is_null_basis(b, az));
        if reaches(next.z, v) {
            let w = choose|w: Seq<real>| w.len() == next.z.ncols() && #[trigger] mvec_s(next.z, w)
                == v;
            let u = mvec_s(b, w);
            lemma_mmul_mvec(st.z, b, w);
            assert(mvec_s(st.z, u) == v);
            lemma_mmul_mvec(t.a, st.z, u);
            lemma_mmul_mvec(az, b, w);
            crate::exact::lemma_mzeros_mvec(az.nrows(), b.ncols(), w);
        }
        if reaches(st.z, v) && mvec_s(t.a, v) == vzeros_s::<real>(t.b.len()) {
            let u = choose|w: Seq<real>| w.len() == st.z.ncols() && #[trigger] mvec_s(st.z, w) == v;
            lemma_mmul_mvec(t.a, st.z, u);
            assert(mvec_s(az, u) == vzeros_s::<real>(az.nrows()));
            let w = choose|w: Seq<real>| w.len() == b.ncols() && #[trigger] mvec_s(b, w) == u;
            lemma_mmul_mvec(st.z, b, w);
            assert(mvec_s(next.z, w) == v);
        }
        if is_regular(st.z) {
            assert forall|w: Seq<real>|
                w.len() == next.z.ncols() && #[trigger] mvec_s(next.z, w) == vzeros_s::<real>(
                    next.z.nrows(),
                ) implies w == vzeros_s::<real>(next.z.ncols()) by {
                lemma_mmul_mvec(st.z, b, w);
                let u = mvec_s(b, w);
                assert(mvec_s(st.z, u) == vzeros_s::<real>(st.z.nrows()));
                assert(u == vzeros_s::<real>(st.z.ncols()));
                assert(mvec_s(b, w) == vzeros_s::<real>(b.nrows()));
            }
        }
    } else {
        assert(mvec_s(t.a, v) =~= vzeros_s::<real>(t.b.len()));
    }
}

/// What the first `k` levels leave free is what none of their equalities sees:
/// the range of the basis is the intersection of their null spaces, and the
/// columns of the basis are independent.
pub proof fn law_freedom(
    ts: Seq<Tsk<real>>,
    cfg: SolveConfig<real>,
    anchor: Option<Seq<real>>,
    n: nat,
    ws: Option<Seq<Warm<real>>>,
    k: nat,
    v: Seq<real>,
)
    requires
        k <= ts.len(),
        levels_ok_s(ts),
        forall|j: int| 0 <= j < k ==> (#[trigger] ts[j]).n() == n,
        answers_fit(ts, cfg, anchor, n, ws, k),
        v.len() == n,
    ensures
        reaches(null_space_upto_s(ts, cfg, anchor, n, ws, k).ho.z, v) <==> forall|j: int|
            0 <= j < k ==> mvec_s((#[trigger] ts[j]).a, v) == vzeros_s::<real>(ts[j].b.len()),
        is_regular(null_space_upto_s(ts, cfg, anchor, n, ws, k).ho.z),
    decreases k,
{
    if k == 0 {
        let id = identity_s::<real>(n);
        lemma_identity_mvec(v);
        assert(mvec_s(id, v) == v);
        assert(reaches(id, v));
        assert forall|w: Seq<real>|
            w.len() == id.ncols() && #[trigger] mvec_s(id, w) == vzeros_s::<real>(
                id.nrows(),
            ) implies w == vzeros_s::<real>(id.ncols()) by {
            lemma_identity_mvec(w);
        }
    } else {
        let j = (k - 1) as nat;
        law_freedom(ts, cfg, anchor, n, ws, j, v);
        lemma_upto_wf(ts, cfg, anchor, n, ws, j);
        let prev = null_space_upto_s(ts, cfg, anchor, n, ws, j);
        let t = ts[j as int];
        let a = Anchor { x: anchor, weight: cfg.prox_weight };
        reveal(ho_level_s);
        let sol = solve_qp_s(ho_args_s(prev.ho, t, a), qp_cfg_s(cfg), prior_s(prev.ws, k - 1)).0;
        assert(widened_s(t, n) == t);
        law_level_freedom(prev.ho, t, sol, v);
        let z = null_space_upto_s(ts, cfg, anchor, n, ws, k).ho.z;
        assert(z == ho_next_s(prev.ho, t, sol).z);
        if reaches(z, v) {
            assert forall|i: int| 0 <= i < k implies mvec_s((#[trigger] ts[i]).a, v)
                == vzeros_s::<real>(ts[i].b.len()) by {
                if i < j {
                    assert(mvec_s(ts[i].a, v) == vzeros_s::<real>(ts[i].b.len()));
                }
            }
        }
        if forall|i: int|
            0 <= i < k ==> mvec_s((#[trigger] ts[i]).a, v) == vzeros_s::<real>(ts[i].b.len()) {
            assert(mvec_s(ts[j as int].a, v) == vzeros_s::<real>(ts[j as int].b.len()));
        }
    }
}

/// `x` meets the rows `d x <= f` and costs no more than any other point that
/// does.
pub open spec fn minimises(
    h: Mat<real>,
    c: Seq<real>,
    d: Mat<real>,
    f: Seq<real>,
    x: Seq<real>,
) -> bool {
    &&& x.len() == c.len()
    &&& below(mvec_s(d, x), f)
    &&& forall|y: Seq<real>|
        y.len() == c.len() && below(#[trigger] mvec_s(d, y), f) ==> objective_s(h, c, x)
            <= objective_s(h, c, y)
}

/// The answer to a level's program is exact.
pub open spec fn exact_answer(
    st: HoState<real>,
    t: Tsk<real>,
    anchor: Anchor<real>,
    sol: Sol<real>,
) -> bool {
    let args = ho_args_s(st, t, anchor);
    sol.status == QpStatus::Optimal && minimises(
        args.h,
        args.c,
        args.a_iq->Some_0,
        args.b_iq->Some_0,
        sol.x,
    )
}

/// The weight of the ridge that a level with equality rows adds to its cost.
pub open spec fn ridge_weight_s(t: Tsk<real>) -> real {
    if t.b.len() > 0 {
        lit_s::<real>(1, -12)
    } else {
        0real
    }
}

/// An exact answer makes the best of the freedom that is left: no point that can
/// be reached from the level's start along a free direction `Z w`, that keeps
/// the inequalities of the levels above with the slack they took, and the
/// level's own with a slack `v` of its own, has a smaller least-squares
/// residual and slack, up to the ridge. No anchor pulls.
pub proof fn law_level_minimises(
    st: HoState<real>,
    t: Tsk<real>,
    anchor: Anchor<real>,
    sol: Sol<real>,
    w: Seq<real>,
    v: Seq<real>,
)
    requires
        st.wf(),
        t.wf(),
        t.n() == st.n(),
        !anchor.pulls(st.n()),
        exact_answer(st, t, anchor, sol),
        w.len() == st.z.ncols(),
        v.len() == t.f.len(),
        below(vzeros_s::<real>(v.len()), v),
        below(mvec_s(st.d, vadd_s(st.x, mvec_s(st.z, w))), vadd_s(st.f, st.slack)),
        below(mvec_s(t.d, vadd_s(st.x, mvec_s(st.z, w))), vadd_s(t.f, v)),
    ensures
        ({
            let next = ho_next_s(st, t, sol);
            let own = slice_s(next.slack, st.f.len(), t.f.len());
            let y = vadd_s(st.x, mvec_s(st.z, w));
            &&& cost_s(t, next.x) + norm_sq_s(own) <= cost_s(t, y) + norm_sq_s(v) + ridge_weight_s(
                t,
            ) * norm_sq_s(w)
            &&& own.len() == t.f.len()
            &&& below(vzeros_s::<real>(own.len()), own)
            &&& below(mvec_s(st.d, next.x), vadd_s(st.f, st.slack))
            &&& below(mvec_s(t.d, next.x), vadd_s(t.f, own))
        }),
{
    let next = ho_next_s(st, t, sol);
    let k = st.z.ncols();
    let args = ho_args_s(st, t, anchor);
    let (z, s) = (slice_s(sol.x, 0, k), slice_s(sol.x, k, t.f.len()));
    let own = slice_s(next.slack, st.f.len(), t.f.len());
    assert(args.c.len() == k + t.f.len());
    assert(z + s =~= sol.x);
    assert(own =~= s);
    law_level_cost(st, t, anchor, z, s);
    law_level_cost(st, t, anchor, w, v);
    law_level_constraints(st, t, w, v);
    law_level_constraints(st, t, z, s);
    assert((w + v).len() == args.c.len());
    assert(below(mvec_s(ho_d_s(st, t), w + v), ho_f_s(st, t)));
    assert(objective_s(args.h, args.c, sol.x) <= objective_s(args.h, args.c, w + v));
    lemma_half();
    lemma_norm_sq_nonneg(z, z.len());
    crate::laws::factor::lemma_lit_pos(1, -12);
    let (e, zz, wwn) = (lit_s::<real>(1, -12), norm_sq_s(z), norm_sq_s(w));
    assert(e * zz >= 0real) by (nonlinear_arith)
        requires
            e > 0real,
            zz >= 0real,
    ;
    if t.b.len() == 0 {
        assert(0real * wwn == 0real) by (nonlinear_arith);
    }
}

/// A level that can be met is met: where some point keeps every equality of the
/// `k` levels above at its value, keeps all inequalities settled so far, and
/// meets both the equality and the inequalities of level `k` (counted from
/// zero), the final point misses the equality of level `k` by no more than the
/// ridge, however many levels follow.
pub proof fn law_reachable_level(
    ts: Seq<Tsk<real>>,
    cfg: SolveConfig<real>,
    anchor: Option<Seq<real>>,
    n: nat,
    ws: Option<Seq<Warm<real>>>,
    k: nat,
    y: Seq<real>,
)
    requires
        k < ts.len(),
        levels_ok_s(ts),
        forall|j: int| 0 <= j < ts.len() ==> (#[trigger] ts[j]).n() == n,
        answers_fit(ts, cfg, anchor, n, ws, ts.len()),
        cfg.prox_weight <= 0real,
        ({
            let st = null_space_upto_s(ts, cfg, anchor, n, ws, k);
            let a = Anchor { x: anchor, weight: cfg.prox_weight };
            let t = ts[k as int];
            let sol = solve_qp_s(ho_args_s(st.ho, t, a), qp_cfg_s(cfg), prior_s(st.ws, k as int)).0;
            &&& exact_answer(st.ho, t, a, sol)
            &&& forall|j: int|
                0 <= j < k ==> mvec_s((#[trigger] ts[j]).a, y) == mvec_s(ts[j].a, st.ho.x)
            &&& below(mvec_s(st.ho.d, y), vadd_s(st.ho.f, st.ho.slack))
        }),
        y.len() == n,
        residual_s(ts[k as int], y) == vzeros_s::<real>(ts[k as int].b.len()),
        keeps(ts[k as int], y),
    ensures
        ({
            let st = null_space_upto_s(ts, cfg, anchor, n, ws, k).ho;
            let end = null_space_upto_s(ts, cfg, anchor, n, ws, ts.len()).ho.x;
            exists|w: Seq<real>|
                w.len() == st.z.ncols() && #[trigger] mvec_s(st.z, w) == vsub_s(y, st.x) && cost_s(
                    ts[k as int],
                    end,
                ) <= lit_s::<real>(1, -12) * norm_sq_s(w)
        }),
{
    let st = null_space_upto_s(ts, cfg, anchor, n, ws, k);
    let t = ts[k as int];
    let a = Anchor { x: anchor, weight: cfg.prox_weight };
    let sol = solve_qp_s(ho_args_s(st.ho, t, a), qp_cfg_s(cfg), prior_s(st.ws, k as int)).0;
    let x = st.ho.x;
    assert forall|i: int| 0 <= i < k implies #[trigger] answer_fits(
        ts,
        cfg,
        anchor,
        n,
        ws,
        i,
    ) by {}
    lemma_upto_wf(ts, cfg, anchor, n, ws, k);
    let v = vsub_s(y, x);
    assert forall|j: int| 0 <= j < k implies mvec_s((#[trigger] ts[j]).a, v) == vzeros_s::<real>(
        ts[j].b.len(),
    ) by {
        assert(mvec_s(ts[j].a, y) == mvec_s(ts[j].a, x));
        lemma_mvec_add(ts[j].a, y, x);
        assert(mvec_s(ts[j].a, v) =~= vzeros_s::<real>(ts[j].b.len()));
    }
    law_freedom(ts, cfg, anchor, n, ws, k, v);
    let w = choose|w: Seq<real>| w.len() == st.ho.z.ncols() && #[trigger] mvec_s(st.ho.z, w) == v;
    assert(vadd_s(x, mvec_s(st.ho.z, w)) =~= y);
    let none = vzeros_s::<real>(t.f.len());
    let own = mvec_s(t.d, y);
    assert forall|i: int| 0 <= i < own.len() implies #[trigger] own[i] <= vadd_s(t.f, none)[i] by {
        assert(mvec_s(t.d, y)[i] <= t.f[i]);
    }
    law_level_minimises(st.ho, t, a, sol, w, none);
    let next = ho_next_s(st.ho, t, sol);
    reveal(ho_level_s);
    assert(widened_s(t, n) == t);
    assert(null_space_upto_s(ts, cfg, anchor, n, ws, k + 1).ho == next);
    let end = null_space_upto_s(ts, cfg, anchor, n, ws, ts.len()).ho.x;
    law_strict_priority(ts, cfg, anchor, n, ws, k, ts.len());
    assert(residual_s(t, end) == residual_s(t, next.x));
    crate::exact::lemma_dot_zero(none, none.len());
    crate::exact::lemma_dot_zero(residual_s(t, y), t.b.len());
    let s = slice_s(next.slack, st.ho.f.len(), t.f.len());
    lemma_norm_sq_nonneg(s, s.len());
    lemma_norm_sq_nonneg(w, w.len());
    crate::laws::factor::lemma_lit_pos(1, -12);
    let (e, ww) = (lit_s::<real>(1, -12), norm_sq_s(w));
    assert(e * ww >= 0real) by (nonlinear_arith)
        requires
            e > 0real,
            ww >= 0real,
    ;
    assert(0real * ww == 0real) by (nonlinear_arith);
}

/// A level over the decision vector of the solve is solved as it is; one without
/// decision variables asks for nothing.
pub proof fn law_widened(t: Tsk<real>, n: nat)
    ensures
        t.n() == n ==> widened_s(t, n) == t,
        t.n() != n ==> widened_s(t, n).b.len() == 0 && widened_s(t, n).f.len() == 0,
        widened_s(t, n).n() == n,
{
}

/// With a pulling anchor, a level minimises its least-squares cost and slack plus
/// half the weight times the squared distance to the anchor: exactly where the
/// basis keeps lengths, and else up to the difference `|z|^2 - |Z z|^2`.
pub proof fn law_anchor_cost(
    st: HoState<real>,
    t: Tsk<real>,
    anchor: Anchor<real>,
    z: Seq<real>,
    v: Seq<real>,
)
    requires
        st.wf(),
        t.wf(),
        t.n() == st.n(),
        z.len() == st.z.ncols(),
        v.len() == t.f.len(),
        anchor.weight > 0real,
        anchor.x matches Some(a) && a.len() == st.n(),
    ensures
        ({
            let args = ho_args_s(st, t, anchor);
            let x = vadd_s(st.x, mvec_s(st.z, z));
            let (w, a, half) = (anchor.weight, anchor.x->Some_0, 1real / 2real);
            objective_s(args.h, args.c, z + v) == half * cost_s(t, x) - half * cost_s(t, st.x) + half
                * norm_sq_s(v) + half * (ridge_weight_s(t) * norm_sq_s(z)) + half * (w * norm_sq_s(
                vsub_s(x, a),
            )) - half * (w * norm_sq_s(vsub_s(st.x, a))) + half * (w * (norm_sq_s(z) - norm_sq_s(
                mvec_s(st.z, z),
            )))
        }),
{
    law_level_cost(st, t, anchor, z, v);
    let (w, a, half) = (anchor.weight, anchor.x->Some_0, 1real / 2real);
    let zz = mvec_s(st.z, z);
    let x = vadd_s(st.x, zz);
    let (d, e) = (vsub_s(st.x, a), vsub_s(a, st.x));
    let g = mvec_s(transpose_s(st.z), e);
    lemma_adjoint(st.z, z, e);
    lemma_dot_comm(z, g);
    lemma_dot_add(zz, a, st.x);
    lemma_dot_add(zz, st.x, a);
    assert(vsub_s(x, a) =~= vadd_s(d, zz));
    let s = vadd_s(d, zz);
    lemma_dot_add(s, d, zz);
    lemma_dot_add(d, d, zz);
    lemma_dot_add(zz, d, zz);
    lemma_dot_comm(d, zz);
    let (nd, nz, nzz, c) = (norm_sq_s(d), norm_sq_s(z), norm_sq_s(zz), dot_s(g, z));
    assert(norm_sq_s(s) == nd - c - c + nzz);
    assert(half * (w * (nd - c - c + nzz)) - half * (w * nd) + half * (w * (nz - nzz)) == half * (w
        * nz) - w * c) by (nonlinear_arith)
        requires
            half == 1real / 2real,
    ;
    let r = ridge_weight_s(t);
    if t.b.len() == 0 {
        assert(half * (0real * nz) == 0real) by (nonlinear_arith);
    }
}

/// The answer to an increment's program is exact.
pub open spec fn exact_increment(args: QpArgs<real>, sol: Sol<real>) -> bool {
    &&& sol.status == QpStatus::Optimal
    &&& sol.x.len() == args.c.len()
    &&& match (args.a_iq, args.b_iq) {
        (Some(d), Some(f)) => minimises(args.h, args.c, d, f, sol.x),
        _ => forall|y: Seq<real>|
            y.len() == args.c.len() ==> objective_s(args.h, args.c, sol.x)
                <= #[trigger] objective_s(args.h, args.c, y),
    }
}

/// A level of the force-budget cascade makes the best of what the inequalities
/// allow: where its increment is exact, the new point keeps the inequalities of
/// this and every level above, and no other point that does has a smaller
/// least-squares residual at this level, up to the regularisation of the
/// increment.
pub proof fn law_budget_minimises(
    ts: Seq<Tsk<real>>,
    cfg: SolveConfig<real>,
    n: nat,
    ws: Option<Seq<Warm<real>>>,
    k: nat,
    y: Seq<real>,
)
    requires
        k < ts.len(),
        levels_ok_s(ts),
        forall|j: int| 0 <= j <= k ==> (#[trigger] ts[j]).n() == n,
        y.len() == n,
        forall|j: int| 0 <= j <= k ==> keeps(#[trigger] ts[j], y),
        budget_upto_s(ts, cfg, n, ws, k).x.len() == n,
        ({
            let st = budget_upto_s(ts, cfg, n, ws, k);
            let args = budget_args_s(
                ts[k as int],
                rho_s(cfg),
                st.x,
                accumulated_s(st.iq, ts[k as int]),
            );
            exact_increment(args, solve_qp_s(args, qp_cfg_s(cfg), prior_s(st.ws, k as int)).0)
        }),
    ensures
        ({
            let x = budget_upto_s(ts, cfg, n, ws, k).x;
            let next = budget_upto_s(ts, cfg, n, ws, k + 1).x;
            let rho = if cfg.prox_weight > lit_s::<real>(1, -8) {
                cfg.prox_weight
            } else {
                lit_s::<real>(1, -8)
            };
            &&& next.len() == n
            &&& forall|j: int| 0 <= j <= k ==> keeps(#[trigger] ts[j], next)
            &&& cost_s(ts[k as int], next) + rho * norm_sq_s(vsub_s(next, x)) <= cost_s(
                ts[k as int],
                y,
            ) + rho * norm_sq_s(vsub_s(y, x))
        }),
{
    let st = budget_upto_s(ts, cfg, n, ws, k);
    let t = ts[k as int];
    let rho = rho_s(cfg);
    let iq = accumulated_s(st.iq, t);
    let args = budget_args_s(t, rho, st.x, iq);
    let sol = solve_qp_s(args, qp_cfg_s(cfg), prior_s(st.ws, k as int)).0;
    let x = st.x;
    let d = vsub_s(y, x);
    let next = vadd_s(x, sol.x);
    assert(t.wf());
    assert(widened_s(t, n) == t);
    assert(budget_upto_s(ts, cfg, n, ws, k + 1).x == next);
    assert(budget_upto_s(ts, cfg, n, ws, k + 1).iq == iq);
    assert(vadd_s(x, d) =~= y);
    assert(vsub_s(next, x) =~= sol.x);
    law_budget_cost(t, rho, x, iq, d);
    law_budget_cost(t, rho, x, iq, sol.x);
    law_budget_accumulates(ts, cfg, n, ws, k + 1, y);
    law_budget_accumulates(ts, cfg, n, ws, k + 1, next);
    assert forall|j: int| 0 <= j < k + 1 implies keeps(#[trigger] widened_s(ts[j], n), y) by {
        assert(keeps(ts[j], y));
        assert(widened_s(ts[j], n) == ts[j]);
    }
    assert(budget_met(iq, y));
    match iq {
        Some(p) => {
            law_budget_constraints(t, rho, x, p, d);
            law_budget_constraints(t, rho, x, p, sol.x);
            assert(objective_s(args.h, args.c, sol.x) <= objective_s(args.h, args.c, d));
        },
        None => {},
    }
    assert(budget_met(iq, next));
    assert forall|j: int| 0 <= j <= k implies keeps(#[trigger] ts[j], next) by {
        assert(keeps(widened_s(ts[j], n), next));
        assert(widened_s(ts[j], n) == ts[j]);
    }
    lemma_half();
}

/// What a level with a pulling anchor `a` of weight `w` minimises at the null-space
/// coordinates `z` and the slack `v`: least-squares residual, slack, ridge, and
/// the distance of the point to the anchor, for a basis that keeps lengths.
pub open spec fn anchored_cost_s(
    st: HoState<real>,
    t: Tsk<real>,
    w: real,
    a: Seq<real>,
    z: Seq<real>,
    v: Seq<real>,
) -> real {
    let x = vadd_s(st.x, mvec_s(st.z, z));
    cost_s(t, x) + norm_sq_s(v) + ridge_weight_s(t) * norm_sq_s(z) + w * norm_sq_s(vsub_s(x, a)) + w
        * (norm_sq_s(z) - norm_sq_s(mvec_s(st.z, z)))
}

/// A level whose program is answered exactly, with the anchor of the solve and a
/// positive weight: no reachable point that keeps the inequalities does better
/// on residual, slack and distance to the anchor together.
pub proof fn law_anchored_level(
    ts: Seq<Tsk<real>>,
    cfg: SolveConfig<real>,
    a: Seq<real>,
    n: nat,
    ws: Option<Seq<Warm<real>>>,
    k: nat,
    z: Seq<real>,
    v: Seq<real>,
)
    requires
        k < ts.len(),
        levels_ok_s(ts),
        ts[k as int].n() == n,
        answers_fit(ts, cfg, Some(a), n, ws, k),
        cfg.prox_weight > 0real,
        a.len() == n,
        ({
            let st = null_space_upto_s(ts, cfg, Some(a), n, ws, k);
            let an = Anchor { x: Some(a), weight: cfg.prox_weight };
            let t = ts[k as int];
            let y = vadd_s(st.ho.x, mvec_s(st.ho.z, z));
            &&& exact_answer(
                st.ho,
                t,
                an,
                solve_qp_s(ho_args_s(st.ho, t, an), qp_cfg_s(cfg), prior_s(st.ws, k as int)).0,
            )
            &&& z.len() == st.ho.z.ncols()
            &&& v.len() == t.f.len()
            &&& below(vzeros_s::<real>(v.len()), v)
            &&& below(mvec_s(st.ho.d, y), vadd_s(st.ho.f, st.ho.slack))
            &&& below(mvec_s(t.d, y), vadd_s(t.f, v))
        }),
    ensures
        ({
            let st = null_space_upto_s(ts, cfg, Some(a), n, ws, k).ho;
            let next = null_space_upto_s(ts, cfg, Some(a), n, ws, k + 1).ho;
            let t = ts[k as int];
            let own = slice_s(next.slack, st.f.len(), t.f.len());
            exists|c: Seq<real>|
                {
                    &&& c.len() == st.z.ncols()
                    &&& next.x == vadd_s(st.x, #[trigger] mvec_s(st.z, c))
                    &&& anchored_cost_s(st, t, cfg.prox_weight, a, c, own) <= anchored_cost_s(
                        st,
                        t,
                        cfg.prox_weight,
                        a,
                        z,
                        v,
                    )
                }
        }),
{
    lemma_upto_wf(ts, cfg, Some(a), n, ws, k);
    let full = null_space_upto_s(ts, cfg, Some(a), n, ws, k);
    let st = full.ho;
    let t = ts[k as int];
    let an = Anchor { x: Some(a), weight: cfg.prox_weight };
    let args = ho_args_s(st, t, an);
    let sol = solve_qp_s(args, qp_cfg_s(cfg), prior_s(full.ws, k as int)).0;
    let next = ho_next_s(st, t, sol);
    reveal(ho_level_s);
    assert(widened_s(t, n) == t);
    assert(null_space_upto_s(ts, cfg, Some(a), n, ws, k + 1).ho == next);
    let c = slice_s(sol.x, 0, st.z.ncols());
    let s = slice_s(sol.x, st.z.ncols(), t.f.len());
    let own = slice_s(next.slack, st.f.len(), t.f.len());
    assert(t.wf());
    assert(args.c.len() == st.z.ncols() + t.f.len());
    assert(c + s =~= sol.x);
    assert(own =~= s);
    law_level_constraints(st, t, z, v);
    assert((z + v).len() == args.c.len());
    assert(below(mvec_s(ho_d_s(st, t), z + v), ho_f_s(st, t)));
    assert(objective_s(args.h, args.c, sol.x) <= objective_s(args.h, args.c, z + v));
    law_anchor_cost(st, t, an, c, s);
    law_anchor_cost(st, t, an, z, v);
    lemma_half();
    assert(next.x == vadd_s(st.x, mvec_s(st.z, c)));
}

} // verus!
