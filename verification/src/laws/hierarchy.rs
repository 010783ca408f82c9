//! Laws of the hierarchical solve.

use vstd::prelude::*;

use crate::dense::{
    col_s, dot_s, identity_s, lemma_mat_eq, mmul_s, mneg_s, mscale_s, mvec_s, mzeros_s, norm_sq_s,
    shift_diag_s, slice_s, stack_rows_s, transpose_s, vadd_s, vneg_s, vscale_s, vsub_s, vzeros_s,
    Mat,
};
use crate::exact::{
    distrib, lemma_adjoint, lemma_dot_add, lemma_dot_comm, lemma_dot_concat, lemma_dot_scale,
    lemma_dot_zero, lemma_identity_mvec, lemma_madd_mvec, lemma_mmul_assoc, lemma_mmul_mvec,
    lemma_mscale_mvec, lemma_mvec_add, lemma_mvec_zero, lemma_mzeros_mvec, lemma_shift_mvec,
    lemma_stack_mvec,
};
use crate::ho_qp::{
    excess_s, hcat_s, ho_args_s, ho_cz_s, ho_d_s, ho_f_s, ho_hzz_s, ho_level_s, ho_next_s,
    ho_start_s, Anchor, HoState,
};
use crate::kernels::DenseKernels;
use crate::laws::kkt::lemma_half;
use crate::laws::null_space::law_null_space;
use crate::laws::qp::law_answer_length;
use crate::laws::task::{below, cost_s, keeps, residual_s};
use crate::qp::{objective_s, solve_qp_s, QpStatus, Sol, Warm};
use crate::scalar::{lit_s, Arith};
use crate::solve::{
    accumulated_s, budget_args_s, budget_g_s, budget_upto_s, levels_ok_s, null_space_upto_s,
    prior_s, qp_cfg_s, widened_s, SolveConfig,
};
use crate::task::Tsk;

verus! {

/// The levels below move in the null space of `u`.
pub open spec fn protected(u: Mat<real>, st: HoState<real>) -> bool {
    mmul_s(u, st.z) == mzeros_s::<real>(u.nrows(), st.z.ncols())
}

/// A level does not touch what the levels above it have settled, and its own
/// equality is settled for the levels below.
pub proof fn law_level_priority(st: HoState<real>, t: Tsk<real>, sol: Sol<real>, u: Mat<real>)
    requires
        st.wf(),
        t.wf(),
        t.n() == st.n(),
        u.shaped(u.nrows(), st.n()),
        protected(u, st),
        sol.status == QpStatus::Optimal ==> sol.x.len() == st.z.ncols() + t.f.len(),
    ensures
        ({
            let next = ho_next_s(st, t, sol);
            &&& next.wf()
            &&& next.n() == st.n()
            &&& mvec_s(u, next.x) == mvec_s(u, st.x)
            &&& protected(u, next)
            &&& protected(t.a, next)
        }),
{
    let next = ho_next_s(st, t, sol);
    let k = st.z.ncols();
    if sol.status == QpStatus::Optimal {
        let y = slice_s(sol.x, 0, k);
        lemma_mvec_add(u, st.x, mvec_s(st.z, y));
        lemma_mmul_mvec(u, st.z, y);
        lemma_mzeros_mvec(u.nrows(), k, y);
        assert(mvec_s(u, next.x) =~= mvec_s(u, st.x));
    }
    if t.a.nrows() > 0 {
        let az = mmul_s(t.a, st.z);
        let w = real::null_space_s(az);
        law_null_space(az);
        lemma_mmul_assoc(u, st.z, w);
        lemma_mmul_assoc(t.a, st.z, w);
        let p = mmul_s(mzeros_s::<real>(u.nrows(), k), w);
        assert forall|i: int, j: int| 0 <= i < p.nrows() && 0 <= j < p.ncols() implies #[trigger]
        p.at(i, j) == 0real by {
            let row = mzeros_s::<real>(u.nrows(), k).rows[i];
            assert(row =~= vzeros_s(k));
            lemma_dot_zero(col_s(w, j), k);
        }
        lemma_mat_eq(p, mzeros_s::<real>(u.nrows(), w.ncols()));
    } else {
        lemma_mat_eq(mmul_s(t.a, next.z), mzeros_s::<real>(0, k));
    }
}

proof fn lemma_hcat_mvec(a: Mat<real>, b: Mat<real>, x: Seq<real>, y: Seq<real>)
    requires
        a.wf(),
        b.shaped(a.nrows(), b.ncols()),
        x.len() == a.ncols(),
        y.len() == b.ncols(),
    ensures
        mvec_s(hcat_s(a, b), x + y) == vadd_s(mvec_s(a, x), mvec_s(b, y)),
{
    let h = hcat_s(a, b);
    assert forall|i: int| 0 <= i < a.nrows() implies mvec_s(h, x + y)[i] == vadd_s(
        mvec_s(a, x),
        mvec_s(b, y),
    )[i] by {
        lemma_dot_concat(a.rows[i], b.rows[i], x, y);
    }
    assert(mvec_s(h, x + y) =~= vadd_s(mvec_s(a, x), mvec_s(b, y)));
}

/// The inequality rows of a level's program at `(z, v)`, block by block.
pub proof fn lemma_level_rows(st: HoState<real>, t: Tsk<real>, z: Seq<real>, v: Seq<real>)
    requires
        st.wf(),
        t.wf(),
        t.n() == st.n(),
        z.len() == st.z.ncols(),
        v.len() == t.f.len(),
    ensures
        mvec_s(ho_d_s(st, t), z + v) == vneg_s(v) + mvec_s(st.d, mvec_s(st.z, z)) + vsub_s(
            mvec_s(t.d, mvec_s(st.z, z)),
            v,
        ),
{
    let (k, m, p) = (st.z.ncols(), t.f.len(), st.f.len());
    let id = identity_s::<real>(m);
    let neg = mneg_s(id);
    lemma_mscale_mvec(0real, id, v);
    lemma_identity_mvec(v);
    let (a, b, c) = (
        hcat_s(mzeros_s(m, k), neg),
        hcat_s(mmul_s(st.d, st.z), mzeros_s(p, m)),
        hcat_s(mmul_s(t.d, st.z), neg),
    );
    let y = z + v;
    lemma_stack_mvec(stack_rows_s(a, b), c, y);
    lemma_stack_mvec(a, b, y);
    lemma_hcat_mvec(mzeros_s(m, k), neg, z, v);
    lemma_hcat_mvec(mmul_s(st.d, st.z), mzeros_s(p, m), z, v);
    lemma_hcat_mvec(mmul_s(t.d, st.z), neg, z, v);
    lemma_mzeros_mvec(m, k, z);
    lemma_mzeros_mvec(p, m, v);
    lemma_mmul_mvec(st.d, st.z, z);
    lemma_mmul_mvec(t.d, st.z, z);
    let zz = mvec_s(st.z, z);
    assert(mvec_s(a, y) =~= vneg_s(v));
    assert(mvec_s(b, y) =~= mvec_s(st.d, zz));
    assert(mvec_s(c, y) =~= vsub_s(mvec_s(t.d, zz), v));
}

/// The inequalities of a level's program hold at `(z, v)` exactly where the
/// slack is not negative, the inequalities of the levels above hold at
/// `x + Z z` with the slack they were given, and the level's own hold with the
/// slack `v`.
pub proof fn law_level_constraints(st: HoState<real>, t: Tsk<real>, z: Seq<real>, v: Seq<real>)
    requires
        st.wf(),
        t.wf(),
        t.n() == st.n(),
        z.len() == st.z.ncols(),
        v.len() == t.f.len(),
    ensures
        ({
            let x = vadd_s(st.x, mvec_s(st.z, z));
            below(mvec_s(ho_d_s(st, t), z + v), ho_f_s(st, t)) <==> {
                &&& below(vzeros_s::<real>(v.len()), v)
                &&& below(mvec_s(st.d, x), vadd_s(st.f, st.slack))
                &&& below(mvec_s(t.d, x), vadd_s(t.f, v))
            }
        }),
{
    let zz = mvec_s(st.z, z);
    let x = vadd_s(st.x, zz);
    let (m, p) = (t.f.len(), st.f.len());
    lemma_level_rows(st, t, z, v);
    lemma_mvec_add(st.d, st.x, zz);
    lemma_mvec_add(t.d, st.x, zz);
    let (lhs, rhs) = (mvec_s(ho_d_s(st, t), z + v), ho_f_s(st, t));
    if below(lhs, rhs) {
        assert forall|i: int| 0 <= i < m implies #[trigger] vzeros_s::<real>(m)[i] <= v[i] by {
            assert(lhs[i] <= rhs[i]);
        }
        assert forall|i: int| 0 <= i < p implies #[trigger] mvec_s(st.d, x)[i] <= vadd_s(
            st.f,
            st.slack,
        )[i] by {
            assert(lhs[m + i] <= rhs[m + i]);
        }
        assert forall|i: int| 0 <= i < m implies #[trigger] mvec_s(t.d, x)[i] <= vadd_s(
            t.f,
            v,
        )[i] by {
            assert(lhs[m + p + i] <= rhs[m + p + i]);
        }
    }
    if below(vzeros_s::<real>(m), v) && below(mvec_s(st.d, x), vadd_s(st.f, st.slack)) && below(
        mvec_s(t.d, x),
        vadd_s(t.f, v),
    ) {
        assert forall|i: int| 0 <= i < lhs.len() implies #[trigger] lhs[i] <= rhs[i] by {
            if i < m {
                assert(vzeros_s::<real>(m)[i] <= v[i]);
            } else if i < m + p {
                assert(mvec_s(st.d, x)[i - m] <= vadd_s(st.f, st.slack)[i - m]);
            } else {
                let j = i - m - p;
                assert(mvec_s(t.d, x)[j] <= vadd_s(t.f, v)[j]);
            }
        }
    }
}

/// The inequalities settled so far hold with their slack.
pub open spec fn settled(st: HoState<real>) -> bool {
    below(mvec_s(st.d, st.x), vadd_s(st.f, st.slack))
}

/// The point that stays and takes the slack it needs meets the inequalities of
/// the level's program.
pub proof fn law_level_start(st: HoState<real>, t: Tsk<real>)
    requires
        st.wf(),
        t.wf(),
        t.n() == st.n(),
        settled(st),
    ensures
        ({
            let start = vzeros_s::<real>(st.z.ncols()) + excess_s(t, st.x);
            below(mvec_s(ho_d_s(st, t), start), ho_f_s(st, t))
        }),
{
    let (z, v) = (vzeros_s::<real>(st.z.ncols()), excess_s(t, st.x));
    law_level_constraints(st, t, z, v);
    lemma_mvec_zero(st.z);
    let x = vadd_s(st.x, mvec_s(st.z, z));
    assert(x =~= st.x);
    assert forall|i: int| 0 <= i < v.len() implies #[trigger] vzeros_s::<real>(v.len())[i]
        <= v[i] by {}
    assert forall|i: int| 0 <= i < v.len() implies #[trigger] mvec_s(t.d, x)[i] <= vadd_s(
        t.f,
        v,
    )[i] by {}
}

/// The program of a level has inequalities alone, and is started at a point that
/// meets them: the level's start, with the least slack that it needs there.
pub proof fn law_level_program(st: HoState<real>, t: Tsk<real>, anchor: Anchor<real>)
    requires
        st.wf(),
        t.wf(),
        t.n() == st.n(),
        settled(st),
    ensures
        ({
            let args = ho_args_s(st, t, anchor);
            let k = st.z.ncols();
            &&& args.a_eq is None
            &&& (args.x0 matches Some(x0) && args.a_iq matches Some(d) && args.b_iq matches Some(f)
                && {
                &&& below(mvec_s(d, x0), f)
                &&& x0.len() == k + t.f.len()
                &&& forall|i: int| 0 <= i < k ==> #[trigger] x0[i] == 0real
                &&& forall|i: int|
                    0 <= i < t.f.len() ==> x0[k + i] == (if #[trigger] mvec_s(t.d, st.x)[i]
                        > t.f[i] {
                        mvec_s(t.d, st.x)[i] - t.f[i]
                    } else {
                        0real
                    })
            })
        }),
{
    law_level_start(st, t);
}

/// A level whose solution meets its inequalities leaves all inequalities so far
/// settled; one that fails holds its point and settles its own by the slack
/// they need.
pub proof fn law_level_settles(st: HoState<real>, t: Tsk<real>, sol: Sol<real>)
    requires
        st.wf(),
        t.wf(),
        t.n() == st.n(),
        settled(st),
        sol.status == QpStatus::Optimal ==> sol.x.len() == st.z.ncols() + t.f.len() && below(
            mvec_s(ho_d_s(st, t), sol.x),
            ho_f_s(st, t),
        ),
    ensures
        settled(ho_next_s(st, t, sol)),
        sol.status != QpStatus::Optimal ==> ho_next_s(st, t, sol).x == st.x,
{
    let next = ho_next_s(st, t, sol);
    let k = st.z.ncols();
    let (z, v) = if sol.status == QpStatus::Optimal {
        (slice_s(sol.x, 0, k), slice_s(sol.x, k, t.f.len()))
    } else {
        (vzeros_s::<real>(k), excess_s(t, st.x))
    };
    if sol.status == QpStatus::Optimal {
        assert(z + v =~= sol.x);
    } else {
        law_level_start(st, t);
        lemma_mvec_zero(st.z);
        assert(vadd_s(st.x, mvec_s(st.z, z)) =~= st.x);
    }
    law_level_constraints(st, t, z, v);
    let x = next.x;
    lemma_stack_mvec(st.d, t.d, x);
    let (lhs, rhs) = (mvec_s(next.d, x), vadd_s(next.f, next.slack));
    assert forall|i: int| 0 <= i < lhs.len() implies #[trigger] lhs[i] <= rhs[i] by {
        if i < st.f.len() {
            assert(mvec_s(st.d, x)[i] <= vadd_s(st.f, st.slack)[i]);
        } else {
            let j = i - st.f.len();
            assert(mvec_s(t.d, x)[j] <= vadd_s(t.f, v)[j]);
        }
    }
}

/// A level that fails holds its point, adds its inequalities to those that are to
/// be kept, and gives each of them just the slack that it needs there.
pub proof fn law_level_fails(st: HoState<real>, t: Tsk<real>, sol: Sol<real>)
    requires
        st.wf(),
        t.wf(),
        t.n() == st.n(),
        sol.status != QpStatus::Optimal,
    ensures
        ({
            let next = ho_next_s(st, t, sol);
            let p = st.f.len();
            &&& next.x == st.x
            &&& next.f == st.f + t.f
            &&& next.d.rows == st.d.rows + t.d.rows
            &&& next.slack.len() == p + t.f.len()
            &&& forall|i: int| 0 <= i < p ==> #[trigger] next.slack[i] == st.slack[i]
            &&& forall|i: int|
                0 <= i < t.f.len() ==> next.slack[p + i] == (if #[trigger] mvec_s(t.d, st.x)[i]
                    > t.f[i] {
                    mvec_s(t.d, st.x)[i] - t.f[i]
                } else {
                    0real
                })
            &&& next.status == sol.status
        }),
{
}

/// Before the first level nothing is to be settled, and everything is free.
pub proof fn law_start_settled(n: nat)
    ensures
        ho_start_s::<real>(n).wf(),
        ho_start_s::<real>(n).n() == n,
        settled(ho_start_s::<real>(n)),
{
}

/// The cascade keeps its state well formed.
pub proof fn lemma_upto_wf(
    ts: Seq<Tsk<real>>,
    cfg: SolveConfig<real>,
    anchor: Option<Seq<real>>,
    n: nat,
    ws: Option<Seq<Warm<real>>>,
    k: nat,
)
    requires
        k <= ts.len(),
        levels_ok_s(ts),
        answers_fit(ts, cfg, anchor, n, ws, k),
    ensures
        null_space_upto_s(ts, cfg, anchor, n, ws, k).ho.wf(),
        null_space_upto_s(ts, cfg, anchor, n, ws, k).ho.n() == n,
    decreases k,
{
    law_start_settled(n);
    if k > 0 {
        lemma_upto_wf(ts, cfg, anchor, n, ws, (k - 1) as nat);
        let st = null_space_upto_s(ts, cfg, anchor, n, ws, (k - 1) as nat);
        let t = widened_s(ts[k - 1], n);
        let a = Anchor { x: anchor, weight: cfg.prox_weight };
        reveal(ho_level_s);
        assert(answer_fits(ts, cfg, anchor, n, ws, k - 1));
        let none = mzeros_s::<real>(0, n);
        lemma_mat_eq(mmul_s(none, st.ho.z), mzeros_s::<real>(0, st.ho.z.ncols()));
        assert(ts[k - 1].wf());
        law_level_priority(
            st.ho,
            t,
            solve_qp_s(ho_args_s(st.ho, t, a), qp_cfg_s(cfg), prior_s(st.ws, k - 1)).0,
            none,
        );
    }
}

/// The answer of the solver at level `k` has the length of the level's
/// variables, as [`crate::qp::solve_qp`] promises.
pub open spec fn answer_fits(
    ts: Seq<Tsk<real>>,
    cfg: SolveConfig<real>,
    anchor: Option<Seq<real>>,
    n: nat,
    ws: Option<Seq<Warm<real>>>,
    k: int,
) -> bool {
    let st = null_space_upto_s(ts, cfg, anchor, n, ws, k as nat);
    let t = widened_s(ts[k], n);
    let a = Anchor { x: anchor, weight: cfg.prox_weight };
    solve_qp_s(ho_args_s(st.ho, t, a), qp_cfg_s(cfg), prior_s(st.ws, k)).0.x.len()
        == st.ho.z.ncols() + t.f.len()
}

/// [`answer_fits`] for the first `k` levels.
pub open spec fn answers_fit(
    ts: Seq<Tsk<real>>,
    cfg: SolveConfig<real>,
    anchor: Option<Seq<real>>,
    n: nat,
    ws: Option<Seq<Warm<real>>>,
    k: nat,
) -> bool {
    forall|i: int| 0 <= i < k ==> #[trigger] answer_fits(ts, cfg, anchor, n, ws, i)
}

/// The inequality rows of the program of level `k` can be counted.
pub open spec fn rows_fit(
    ts: Seq<Tsk<real>>,
    cfg: SolveConfig<real>,
    anchor: Option<Seq<real>>,
    n: nat,
    ws: Option<Seq<Warm<real>>>,
    k: int,
) -> bool {
    let st = null_space_upto_s(ts, cfg, anchor, n, ws, k as nat);
    ho_f_s(st.ho, widened_s(ts[k], n)).len() <= usize::MAX
}

/// The solvers keep that promise.
pub proof fn law_answers_fit(
    ts: Seq<Tsk<real>>,
    cfg: SolveConfig<real>,
    anchor: Option<Seq<real>>,
    n: nat,
    ws: Option<Seq<Warm<real>>>,
    k: nat,
)
    requires
        k <= ts.len(),
        levels_ok_s(ts),
        forall|i: int| 0 <= i < k ==> #[trigger] rows_fit(ts, cfg, anchor, n, ws, i),
    ensures
        answers_fit(ts, cfg, anchor, n, ws, k),
    decreases k,
{
    if k > 0 {
        let j = (k - 1) as nat;
        law_answers_fit(ts, cfg, anchor, n, ws, j);
        lemma_upto_wf(ts, cfg, anchor, n, ws, j);
        let st = null_space_upto_s(ts, cfg, anchor, n, ws, j);
        assert(ts[j as int].wf());
        assert(rows_fit(ts, cfg, anchor, n, ws, j as int));
        let t = widened_s(ts[j as int], n);
        let a = Anchor { x: anchor, weight: cfg.prox_weight };
        law_answer_length(ho_args_s(st.ho, t, a), qp_cfg_s(cfg), prior_s(st.ws, j as int));
    }
}

/// Priority is strict: whatever the levels below `j` do, the equality of level
/// `j` stays as level `j` left it.
pub proof fn law_strict_priority(
    ts: Seq<Tsk<real>>,
    cfg: SolveConfig<real>,
    anchor: Option<Seq<real>>,
    n: nat,
    ws: Option<Seq<Warm<real>>>,
    j: nat,
    k: nat,
)
    requires
        j < k <= ts.len(),
        levels_ok_s(ts),
        answers_fit(ts, cfg, anchor, n, ws, k),
    ensures
        ({
            let a = widened_s(ts[j as int], n).a;
            let own = null_space_upto_s(ts, cfg, anchor, n, ws, j + 1).ho;
            let later = null_space_upto_s(ts, cfg, anchor, n, ws, k).ho;
            &&& mvec_s(a, later.x) == mvec_s(a, own.x)
            &&& protected(a, later)
        }),
    decreases k,
{
    let prev = null_space_upto_s(ts, cfg, anchor, n, ws, (k - 1) as nat);
    lemma_upto_wf(ts, cfg, anchor, n, ws, (k - 1) as nat);
    let t = widened_s(ts[k - 1], n);
    let an = Anchor { x: anchor, weight: cfg.prox_weight };
    reveal(ho_level_s);
    assert(answer_fits(ts, cfg, anchor, n, ws, k - 1));
    let sol = solve_qp_s(ho_args_s(prev.ho, t, an), qp_cfg_s(cfg), prior_s(prev.ws, k - 1)).0;
    assert(ts[k - 1].wf());
    assert(ts[j as int].wf());
    if j == k - 1 {
        let none = mzeros_s::<real>(0, n);
        lemma_mat_eq(mmul_s(none, prev.ho.z), mzeros_s::<real>(0, prev.ho.z.ncols()));
        law_level_priority(prev.ho, t, sol, none);
    } else {
        law_strict_priority(ts, cfg, anchor, n, ws, j, (k - 1) as nat);
        law_level_priority(prev.ho, t, sol, widened_s(ts[j as int], n).a);
    }
}

/// The squared norm of a sum.
proof fn lemma_norm_sum(a: Seq<real>, b: Seq<real>)
    requires
        a.len() == b.len(),
    ensures
        norm_sq_s(vadd_s(a, b)) == norm_sq_s(a) + dot_s(a, b) + dot_s(a, b) + norm_sq_s(b),
{
    let s = vadd_s(a, b);
    lemma_dot_add(s, a, b);
    lemma_dot_add(a, a, b);
    lemma_dot_add(b, a, b);
    lemma_dot_comm(a, b);
}

/// The pull of the anchor on the null-space coordinates.
pub open spec fn pull_cost_s(st: HoState<real>, anchor: Anchor<real>, z: Seq<real>) -> real {
    if anchor.pulls(st.n()) {
        (1real / 2real) * (anchor.weight * norm_sq_s(z)) - anchor.weight * dot_s(
            mvec_s(transpose_s(st.z), vsub_s(anchor.x->0, st.x)),
            z,
        )
    } else {
        0real
    }
}

/// The ridge of `1e-12` that a level with equality rows adds to its cost.
pub open spec fn ridge_cost_s(t: Tsk<real>, z: Seq<real>) -> real {
    if t.a.nrows() > 0 {
        (1real / 2real) * (lit_s::<real>(1, -12) * norm_sq_s(z))
    } else {
        0real
    }
}

/// The cost of a level's program at `(z, v)` is half the level's least-squares
/// cost at `x + Z z` and half the squared slack, plus the ridge and the pull of
/// the anchor, up to a constant.
pub proof fn law_level_cost(
    st: HoState<real>,
    t: Tsk<real>,
    anchor: Anchor<real>,
    z: Seq<real>,
    v: Seq<real>,
)
    requires
        st.wf(),
        t.wf(),
        t.n() == st.n(),
        z.len() == st.z.ncols(),
        v.len() == t.f.len(),
    ensures
        ({
            let args = ho_args_s(st, t, anchor);
            let x = vadd_s(st.x, mvec_s(st.z, z));
            objective_s(args.h, args.c, z + v) == (1real / 2real) * cost_s(t, x) - (1real / 2real)
                * cost_s(t, st.x) + (1real / 2real) * norm_sq_s(v) + ridge_cost_s(t, z)
                + pull_cost_s(st, anchor, z)
        }),
{
    lemma_half();
    let (k, m) = (st.z.ncols(), t.f.len());
    let hzz = ho_hzz_s(st, t, anchor);
    let cz = ho_cz_s(st, t, anchor);
    let (top, bot) = (hcat_s(hzz, mzeros_s(k, m)), hcat_s(mzeros_s(m, k), identity_s::<real>(m)));
    lemma_stack_mvec(top, bot, z + v);
    lemma_hcat_mvec(hzz, mzeros_s(k, m), z, v);
    lemma_hcat_mvec(mzeros_s(m, k), identity_s::<real>(m), z, v);
    lemma_mzeros_mvec(k, m, v);
    lemma_mzeros_mvec(m, k, z);
    lemma_identity_mvec(v);
    assert(mvec_s(top, z + v) =~= mvec_s(hzz, z));
    assert(mvec_s(bot, z + v) =~= v);
    lemma_dot_concat(z, v, mvec_s(hzz, z), v);
    lemma_dot_concat(cz, vzeros_s::<real>(m), z, v);
    lemma_dot_zero(v, m);
    lemma_level_cost_z(st, t, anchor, z);
    let (a, b) = (dot_s(z, mvec_s(hzz, z)), norm_sq_s(v));
    distrib(1real / 2real, a, b);
}

/// The part of that cost in the null-space coordinates.
proof fn lemma_level_cost_z(st: HoState<real>, t: Tsk<real>, anchor: Anchor<real>, z: Seq<real>)
    requires
        st.wf(),
        t.wf(),
        t.n() == st.n(),
        z.len() == st.z.ncols(),
    ensures
        ({
            let x = vadd_s(st.x, mvec_s(st.z, z));
            (1real / 2real) * dot_s(z, mvec_s(ho_hzz_s(st, t, anchor), z)) + dot_s(
                ho_cz_s(st, t, anchor),
                z,
            ) == (1real / 2real) * cost_s(t, x) - (1real / 2real) * cost_s(t, st.x)
                + ridge_cost_s(t, z) + pull_cost_s(st, anchor, z)
        }),
{
    let k = st.z.ncols();
    let x = vadd_s(st.x, mvec_s(st.z, z));
    let az = mmul_s(t.a, st.z);
    let azt = transpose_s(az);
    let e = lit_s::<real>(1, -12);
    let r = vsub_s(mvec_s(t.a, st.x), t.b);
    let w = mvec_s(az, z);
    // the plain part
    let hbase = if t.a.nrows() > 0 {
        shift_diag_s(mmul_s(azt, az), e)
    } else {
        mzeros_s(k, k)
    };
    let cbase = if t.a.nrows() > 0 {
        mvec_s(azt, r)
    } else {
        vzeros_s(k)
    };
    let half = 1real / 2real;
    lemma_mmul_mvec(t.a, st.z, z);
    lemma_mvec_add(t.a, st.x, mvec_s(st.z, z));
    assert(residual_s(t, x) =~= vadd_s(r, w));
    lemma_norm_sum(r, w);
    let (nr, rw, nw) = (norm_sq_s(r), dot_s(r, w), norm_sq_s(w));
    assert(half * cost_s(t, x) - half * cost_s(t, st.x) == rw + half * nw);
    if t.a.nrows() > 0 {
        lemma_shift_mvec(mmul_s(azt, az), e, z);
        lemma_mmul_mvec(azt, az, z);
        lemma_dot_add(z, mvec_s(azt, w), vscale_s(e, z));
        lemma_dot_scale(z, e, z);
        lemma_adjoint(az, z, w);
        lemma_adjoint(az, z, r);
        lemma_dot_comm(z, mvec_s(azt, r));
        lemma_dot_comm(w, r);
        distrib(half, nw, e * norm_sq_s(z));
    } else {
        lemma_mzeros_mvec(k, k, z);
        lemma_dot_zero(z, k);
    }
    assert(half * dot_s(z, mvec_s(hbase, z)) + dot_s(cbase, z) == rw + half * nw + ridge_cost_s(
        t,
        z,
    ));
    if anchor.pulls(st.n()) {
        let g = mvec_s(transpose_s(st.z), vsub_s(anchor.x->0, st.x));
        lemma_shift_mvec(hbase, anchor.weight, z);
        lemma_dot_add(z, mvec_s(hbase, z), vscale_s(anchor.weight, z));
        lemma_dot_scale(z, anchor.weight, z);
        lemma_dot_add(z, cbase, vscale_s(anchor.weight, g));
        lemma_dot_scale(z, anchor.weight, g);
        distrib(half, dot_s(z, mvec_s(hbase, z)), anchor.weight * norm_sq_s(z));
    }
}

/// The inequalities collected by the force-budget cascade hold at `x`.
pub open spec fn budget_met(iq: Option<(Mat<real>, Seq<real>)>, x: Seq<real>) -> bool {
    iq matches Some(p) ==> below(mvec_s(p.0, x), p.1)
}

proof fn lemma_accumulated(iq: Option<(Mat<real>, Seq<real>)>, t: Tsk<real>, x: Seq<real>)
    requires
        t.wf(),
        iq matches Some(p) ==> p.0.shaped(p.1.len(), t.n()),
    ensures
        accumulated_s(iq, t) matches Some(p) ==> p.0.shaped(p.1.len(), t.n()),
        budget_met(accumulated_s(iq, t), x) <==> budget_met(iq, x) && keeps(t, x),
{
    let all = accumulated_s(iq, t);
    if t.d.nrows() > 0 {
        match iq {
            None => {
                if below(mvec_s(t.d, x), t.f) {
                    assert forall|i: int| 0 <= i < t.f.len() implies #[trigger] mvec_s(t.d, x)[i]
                        <= t.f[i] by {}
                }
                if keeps(t, x) {
                    let y = mvec_s(t.d, x);
                    assert forall|i: int| 0 <= i < y.len() implies #[trigger] y[i] <= t.f[i] by {}
                }
            },
            Some(p) => {
                lemma_stack_mvec(p.0, t.d, x);
                let (y, b) = (mvec_s(stack_rows_s(p.0, t.d), x), p.1 + t.f);
                let m = p.1.len();
                if below(y, b) {
                    assert forall|i: int| 0 <= i < t.f.len() implies #[trigger] mvec_s(t.d, x)[i]
                        <= t.f[i] by {
                        assert(y[m + i] <= b[m + i]);
                    }
                    let y0 = mvec_s(p.0, x);
                    assert forall|i: int| 0 <= i < y0.len() implies #[trigger] y0[i] <= p.1[i] by {
                        assert(y[i] <= b[i]);
                    }
                }
                if below(mvec_s(p.0, x), p.1) && keeps(t, x) {
                    assert forall|i: int| 0 <= i < y.len() implies #[trigger] y[i] <= b[i] by {
                        if i < m {
                            assert(mvec_s(p.0, x)[i] <= p.1[i]);
                        } else {
                            assert(mvec_s(t.d, x)[i - m] <= t.f[i - m]);
                        }
                    }
                }
            },
        }
    }
}

/// The inequalities of the force-budget cascade accumulate downwards: after `k`
/// levels they hold at a point exactly where those of every one of the `k`
/// levels do.
pub proof fn law_budget_accumulates(
    ts: Seq<Tsk<real>>,
    cfg: SolveConfig<real>,
    n: nat,
    ws: Option<Seq<Warm<real>>>,
    k: nat,
    x: Seq<real>,
)
    requires
        k <= ts.len(),
        levels_ok_s(ts),
    ensures
        budget_upto_s(ts, cfg, n, ws, k).iq matches Some(p) ==> p.0.shaped(p.1.len(), n),
        budget_met(budget_upto_s(ts, cfg, n, ws, k).iq, x) <==> forall|j: int|
            0 <= j < k ==> keeps(#[trigger] widened_s(ts[j], n), x),
    decreases k,
{
    if k > 0 {
        law_budget_accumulates(ts, cfg, n, ws, (k - 1) as nat, x);
        assert(ts[k - 1].wf());
        let t = widened_s(ts[k - 1], n);
        let prev = budget_upto_s(ts, cfg, n, ws, (k - 1) as nat).iq;
        lemma_accumulated(prev, t, x);
        if budget_met(accumulated_s(prev, t), x) {
            assert forall|j: int| 0 <= j < k implies keeps(#[trigger] widened_s(ts[j], n), x) by {
                if j < k - 1 {
                }
            }
        }
        if forall|j: int| 0 <= j < k ==> keeps(#[trigger] widened_s(ts[j], n), x) {
            assert(keeps(widened_s(ts[k - 1], n), x));
        }
    }
}

/// The inequalities of an increment's program hold at `d` exactly where the
/// collected inequalities hold at `x + d`.
pub proof fn law_budget_constraints(
    t: Tsk<real>,
    rho: real,
    x: Seq<real>,
    p: (Mat<real>, Seq<real>),
    d: Seq<real>,
)
    requires
        p.0.shaped(p.1.len(), x.len()),
        d.len() == x.len(),
    ensures
        ({
            let args = budget_args_s(t, rho, x, Some(p));
            below(mvec_s(args.a_iq->0, d), args.b_iq->0) <==> budget_met(Some(p), vadd_s(x, d))
        }),
{
    lemma_mvec_add(p.0, x, d);
    let (y, b) = (mvec_s(p.0, d), vsub_s(p.1, mvec_s(p.0, x)));
    let z = mvec_s(p.0, vadd_s(x, d));
    if below(y, b) {
        assert forall|i: int| 0 <= i < z.len() implies #[trigger] z[i] <= p.1[i] by {
            assert(y[i] <= b[i]);
        }
    }
    if below(z, p.1) {
        assert forall|i: int| 0 <= i < y.len() implies #[trigger] y[i] <= b[i] by {
            assert(z[i] <= p.1[i]);
        }
    }
}

/// The cost of an increment is half the level's least-squares cost at `x + d`
/// and the regularisation of the increment, up to a constant.
pub proof fn law_budget_cost(
    t: Tsk<real>,
    rho: real,
    x: Seq<real>,
    iq: Option<(Mat<real>, Seq<real>)>,
    d: Seq<real>,
)
    requires
        t.wf(),
        t.n() == x.len(),
        d.len() == x.len(),
    ensures
        ({
            let args = budget_args_s(t, rho, x, iq);
            objective_s(args.h, args.c, d) == (1real / 2real) * cost_s(t, vadd_s(x, d)) - (1real
                / 2real) * cost_s(t, x) + (1real / 2real) * (rho * norm_sq_s(d))
        }),
{
    lemma_half();
    let n = x.len();
    let half = 1real / 2real;
    let id = identity_s::<real>(n);
    let base = mscale_s(rho, id);
    let r = residual_s(t, x);
    let w = mvec_s(t.a, d);
    lemma_mscale_mvec(rho, id, d);
    lemma_identity_mvec(d);
    lemma_dot_scale(d, rho, d);
    lemma_mvec_add(t.a, x, d);
    assert(residual_s(t, vadd_s(x, d)) =~= vadd_s(r, w));
    lemma_norm_sum(r, w);
    let at = transpose_s(t.a);
    if t.a.nrows() > 0 {
        let g = mmul_s(at, t.a);
        lemma_madd_mvec(base, g, d);
        lemma_mmul_mvec(at, t.a, d);
        lemma_dot_add(d, vscale_s(rho, d), mvec_s(at, w));
        lemma_adjoint(t.a, d, w);
        let c = budget_g_s(t, x);
        assert(c =~= mvec_s(at, r));
        lemma_adjoint(t.a, d, r);
        lemma_dot_comm(d, mvec_s(at, r));
        lemma_dot_comm(w, r);
        distrib(half, rho * norm_sq_s(d), norm_sq_s(w));
    } else {
        lemma_dot_zero(d, n);
    }
}

} // verus!
