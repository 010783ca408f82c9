//! Laws of the null-space cascade as a whole: what appended levels leave, and
//! what becomes of the inequalities.

use vstd::prelude::*;

use crate::active_set::active_set_s;
use crate::active_start::prepare_s;
use crate::dense::{mvec_s, slice_s, vadd_s, vsub_s};
use crate::exact::{lemma_mvec_add, lemma_stack_mvec};
use crate::ho_qp::{excess_s, ho_args_s, ho_d_s, ho_f_s, ho_level_s, ho_next_s, Anchor, HoState};
use crate::kernels::DenseKernels;
use crate::laws::active_set::{law_active_set, law_prepared, slack_s};
use crate::laws::hierarchy::{
    answer_fits, answers_fit, law_answers_fit, law_start_settled, law_strict_priority,
    lemma_level_rows, lemma_upto_wf, rows_fit,
};
use crate::laws::kkt::within_by;
use crate::laws::working_set::law_active_set_exit;
use crate::qp::{row_dot_s, solve_qp_s, QpArgs, QpConfig, QpSolver, QpStatus, Sol, Warm};
use crate::scalar::{roots_exist, Arith};
use crate::solve::{
    check_s, levels_ok_s, null_space_upto_s, prior_s, qp_cfg_s, shared_n_s, solve_s, widened_s,
    HqpStrategy, SolveConfig, Solved, WbcError,
};
use crate::task::Tsk;

verus! {

/// The number of inequality rows of the first `k` levels over `n` variables.
pub open spec fn rows_total_s(ts: Seq<Tsk<real>>, n: nat, k: nat) -> nat
    decreases k,
{
    if k == 0 {
        0
    } else {
        rows_total_s(ts, n, (k - 1) as nat) + widened_s(ts[k - 1], n).f.len()
    }
}

proof fn lemma_total_mono(ts: Seq<Tsk<real>>, n: nat, j: nat, k: nat)
    requires
        j <= k,
    ensures
        rows_total_s(ts, n, j) <= rows_total_s(ts, n, k),
    decreases k,
{
    if j < k {
        lemma_total_mono(ts, n, j, (k - 1) as nat);
    }
}

proof fn lemma_upto_rows(
    ts: Seq<Tsk<real>>,
    cfg: SolveConfig<real>,
    anchor: Option<Seq<real>>,
    n: nat,
    ws: Option<Seq<Warm<real>>>,
    k: nat,
)
    ensures
        null_space_upto_s(ts, cfg, anchor, n, ws, k).ho.f.len() == rows_total_s(ts, n, k),
    decreases k,
{
    if k > 0 {
        reveal(ho_level_s);
        lemma_upto_rows(ts, cfg, anchor, n, ws, (k - 1) as nat);
    }
}

/// Twice the number of inequality rows of a hierarchy can be counted: the size
/// of the largest program that its cascade solves.
pub open spec fn countable(ts: Seq<Tsk<real>>, n: nat) -> bool {
    2 * rows_total_s(ts, n, ts.len()) <= usize::MAX
}

/// Every answer of the cascade has its program's length.
pub proof fn law_cascade_fits(
    ts: Seq<Tsk<real>>,
    cfg: SolveConfig<real>,
    anchor: Option<Seq<real>>,
    n: nat,
    ws: Option<Seq<Warm<real>>>,
)
    requires
        levels_ok_s(ts),
        countable(ts, n),
    ensures
        answers_fit(ts, cfg, anchor, n, ws, ts.len()),
{
    assert forall|i: int| 0 <= i < ts.len() implies #[trigger] rows_fit(
        ts,
        cfg,
        anchor,
        n,
        ws,
        i,
    ) by {
        assert(ts[i].wf());
        lemma_upto_rows(ts, cfg, anchor, n, ws, i as nat);
        lemma_total_mono(ts, n, (i + 1) as nat, ts.len());
        assert(rows_total_s(ts, n, (i + 1) as nat) == rows_total_s(ts, n, i as nat) + widened_s(
            ts[i],
            n,
        ).f.len());
        lemma_fits_first(ts, cfg, anchor, n, ws, i as nat);
    }
    law_answers_fit(ts, cfg, anchor, n, ws, ts.len());
}

/// The bounds of a level's program: own slack, rows so far, own rows.
proof fn lemma_fits_first(
    ts: Seq<Tsk<real>>,
    cfg: SolveConfig<real>,
    anchor: Option<Seq<real>>,
    n: nat,
    ws: Option<Seq<Warm<real>>>,
    i: nat,
)
    requires
        i < ts.len(),
        ts[i as int].wf(),
    ensures
        ({
            let st = null_space_upto_s(ts, cfg, anchor, n, ws, i).ho;
            let t = widened_s(ts[i as int], n);
            ho_f_s(st, t).len() == t.f.len() + st.f.len() + t.f.len()
        }),
{
}

/// The cascade over a prefix of the levels is the beginning of the whole one.
proof fn lemma_prefix<T: DenseKernels>(
    ts: Seq<Tsk<T>>,
    cfg: SolveConfig<T>,
    anchor: Option<Seq<T>>,
    n: nat,
    ws: Option<Seq<Warm<T>>>,
    k: nat,
    j: nat,
)
    requires
        j <= k <= ts.len(),
    ensures
        null_space_upto_s(ts.take(k as int), cfg, anchor, n, ws, j) == null_space_upto_s(
            ts,
            cfg,
            anchor,
            n,
            ws,
            j,
        ),
    decreases j,
{
    if j > 0 {
        lemma_prefix(ts, cfg, anchor, n, ws, k, (j - 1) as nat);
        assert(ts.take(k as int)[j - 1] == ts[j - 1]);
    }
}

/// Appending levels of lower priority never disturbs a higher one: solving the
/// first `k` levels alone and solving all of them give every equality among the
/// first `k` the same value, whatever its residual.
///
/// Some level among the first `k` is to have decision variables if any has.
pub proof fn law_appended_levels(
    ts: Seq<Tsk<real>>,
    cfg: SolveConfig<real>,
    anchor: Option<Seq<real>>,
    k: nat,
    i: int,
    upper: Solved<real>,
    all: Solved<real>,
)
    requires
        levels_ok_s(ts),
        cfg.strategy == HqpStrategy::NullSpace,
        0 <= i < k <= ts.len(),
        shared_n_s(ts.take(k as int), k) == shared_n_s(ts, ts.len()),
        countable(ts, shared_n_s(ts, ts.len())),
        solve_s(ts.take(k as int), cfg, anchor) == Ok::<Solved<real>, WbcError>(upper),
        solve_s(ts, cfg, anchor) == Ok::<Solved<real>, WbcError>(all),
    ensures
        ({
            let t = widened_s(ts[i], shared_n_s(ts, ts.len()));
            &&& mvec_s(t.a, all.x) == mvec_s(t.a, upper.x)
            &&& vsub_s(mvec_s(t.a, all.x), t.b) == vsub_s(mvec_s(t.a, upper.x), t.b)
        }),
{
    let n = shared_n_s(ts, ts.len());
    let head = ts.take(k as int);
    assert(head.len() == k);
    assert(check_s(ts) == Ok::<nat, WbcError>(n));
    assert(check_s(head) == Ok::<nat, WbcError>(n));
    law_cascade_fits(ts, cfg, anchor, n, None);
    lemma_prefix(ts, cfg, anchor, n, None, k, k);
    assert(answers_fit(ts, cfg, anchor, n, None, k)) by {
        assert forall|j: int| 0 <= j < k implies #[trigger] answer_fits(
            ts,
            cfg,
            anchor,
            n,
            None,
            j,
        ) by {}
    }
    law_strict_priority(ts, cfg, anchor, n, None, i as nat, k);
    law_strict_priority(ts, cfg, anchor, n, None, i as nat, ts.len());
}

/// Entry by entry at most `b` more.
pub open spec fn below_by(a: Seq<real>, c: Seq<real>, b: real) -> bool {
    forall|i: int| 0 <= i < a.len() ==> #[trigger] a[i] <= c[i] + b
}

/// The inequalities so far hold with their slack, up to `b`.
pub open spec fn settled_by(st: HoState<real>, b: real) -> bool {
    below_by(mvec_s(st.d, st.x), vadd_s(st.f, st.slack), b)
}

/// The slack that the last level took for its own inequalities.
pub open spec fn own_slack_s(st: HoState<real>, t: Tsk<real>, sol: Sol<real>) -> Seq<real> {
    if sol.status == QpStatus::Optimal {
        slice_s(sol.x, st.z.ncols(), t.f.len())
    } else {
        excess_s(t, st.x)
    }
}

/// A level whose answer exceeds no row of its program by more than `b` leaves
/// all inequalities so far settled up to `b`, its own with a slack that is not
/// below `-b`. The excess does not add up over the levels: each level measures
/// from the bounds themselves.
pub proof fn law_level_settles_by(st: HoState<real>, t: Tsk<real>, sol: Sol<real>, b: real)
    requires
        st.wf(),
        t.wf(),
        t.n() == st.n(),
        b >= 0real,
        settled_by(st, b),
        sol.status == QpStatus::Optimal ==> sol.x.len() == st.z.ncols() + t.f.len() && below_by(
            mvec_s(ho_d_s(st, t), sol.x),
            ho_f_s(st, t),
            b,
        ),
    ensures
        settled_by(ho_next_s(st, t, sol), b),
        ho_next_s(st, t, sol).slack == st.slack + own_slack_s(st, t, sol),
        forall|i: int|
            0 <= i < t.f.len() ==> #[trigger] mvec_s(t.d, ho_next_s(st, t, sol).x)[i] <= t.f[i]
                + own_slack_s(st, t, sol)[i] + b,
        forall|i: int| 0 <= i < t.f.len() ==> #[trigger] own_slack_s(st, t, sol)[i] >= -b,
{
    let next = ho_next_s(st, t, sol);
    let (k, m, p) = (st.z.ncols(), t.f.len(), st.f.len());
    let v = own_slack_s(st, t, sol);
    let x = next.x;
    if sol.status == QpStatus::Optimal {
        let z = slice_s(sol.x, 0, k);
        assert(z + v =~= sol.x);
        lemma_level_rows(st, t, z, v);
        let zz = mvec_s(st.z, z);
        lemma_mvec_add(st.d, st.x, zz);
        lemma_mvec_add(t.d, st.x, zz);
        let (lhs, rhs) = (mvec_s(ho_d_s(st, t), sol.x), ho_f_s(st, t));
        assert forall|i: int| 0 <= i < m implies #[trigger] v[i] >= -b by {
            assert(lhs[i] <= rhs[i] + b);
        }
        assert forall|i: int| 0 <= i < p implies #[trigger] mvec_s(st.d, x)[i] <= vadd_s(
            st.f,
            st.slack,
        )[i] + b by {
            assert(lhs[m + i] <= rhs[m + i] + b);
        }
        assert forall|i: int| 0 <= i < m implies #[trigger] mvec_s(t.d, x)[i] <= t.f[i] + v[i]
            + b by {
            assert(lhs[m + p + i] <= rhs[m + p + i] + b);
        }
    } else {
        assert forall|i: int| 0 <= i < m implies #[trigger] v[i] >= -b by {}
        assert forall|i: int| 0 <= i < m implies #[trigger] mvec_s(t.d, x)[i] <= t.f[i] + v[i]
            + b by {}
    }
    lemma_stack_mvec(st.d, t.d, x);
    let (lhs, rhs) = (mvec_s(next.d, x), vadd_s(next.f, next.slack));
    assert forall|i: int| 0 <= i < lhs.len() implies #[trigger] lhs[i] <= rhs[i] + b by {
        if i < p {
            assert(mvec_s(st.d, x)[i] <= vadd_s(st.f, st.slack)[i] + b);
        } else {
            assert(mvec_s(t.d, x)[i - p] <= t.f[i - p] + v[i - p] + b);
        }
    }
}

/// The answer of the program of level `k`.
pub open spec fn answer_s(
    ts: Seq<Tsk<real>>,
    cfg: SolveConfig<real>,
    anchor: Option<Seq<real>>,
    n: nat,
    ws: Option<Seq<Warm<real>>>,
    k: int,
) -> Sol<real> {
    let st = null_space_upto_s(ts, cfg, anchor, n, ws, k as nat);
    let a = Anchor { x: anchor, weight: cfg.prox_weight };
    solve_qp_s(
        ho_args_s(st.ho, widened_s(ts[k], n), a),
        qp_cfg_s(cfg),
        prior_s(st.ws, k),
    ).0
}

/// Where level `k` reached its optimum, its answer exceeds no row of its program
/// by more than `b`.
pub open spec fn meets_rows(
    ts: Seq<Tsk<real>>,
    cfg: SolveConfig<real>,
    anchor: Option<Seq<real>>,
    n: nat,
    ws: Option<Seq<Warm<real>>>,
    k: int,
    b: real,
) -> bool {
    let st = null_space_upto_s(ts, cfg, anchor, n, ws, k as nat).ho;
    let t = widened_s(ts[k], n);
    let sol = answer_s(ts, cfg, anchor, n, ws, k);
    sol.status == QpStatus::Optimal ==> below_by(mvec_s(ho_d_s(st, t), sol.x), ho_f_s(st, t), b)
}

/// The slack that level `k` took for its own inequalities.
pub open spec fn level_slack_s(
    ts: Seq<Tsk<real>>,
    cfg: SolveConfig<real>,
    anchor: Option<Seq<real>>,
    n: nat,
    ws: Option<Seq<Warm<real>>>,
    k: int,
) -> Seq<real> {
    own_slack_s(
        null_space_upto_s(ts, cfg, anchor, n, ws, k as nat).ho,
        widened_s(ts[k], n),
        answer_s(ts, cfg, anchor, n, ws, k),
    )
}

/// After `k` levels all their inequalities are settled up to `b`, if the answers
/// exceed no row of their programs by more.
pub proof fn law_cascade_settles(
    ts: Seq<Tsk<real>>,
    cfg: SolveConfig<real>,
    anchor: Option<Seq<real>>,
    n: nat,
    ws: Option<Seq<Warm<real>>>,
    k: nat,
    b: real,
)
    requires
        k <= ts.len(),
        levels_ok_s(ts),
        answers_fit(ts, cfg, anchor, n, ws, k),
        b >= 0real,
        forall|i: int| 0 <= i < k ==> #[trigger] meets_rows(ts, cfg, anchor, n, ws, i, b),
    ensures
        settled_by(null_space_upto_s(ts, cfg, anchor, n, ws, k).ho, b),
    decreases k,
{
    law_start_settled(n);
    if k > 0 {
        let j = (k - 1) as nat;
        law_cascade_settles(ts, cfg, anchor, n, ws, j, b);
        lemma_cascade_step(ts, cfg, anchor, n, ws, j, b);
    }
}

proof fn lemma_cascade_step(
    ts: Seq<Tsk<real>>,
    cfg: SolveConfig<real>,
    anchor: Option<Seq<real>>,
    n: nat,
    ws: Option<Seq<Warm<real>>>,
    j: nat,
    b: real,
)
    requires
        j < ts.len(),
        levels_ok_s(ts),
        answers_fit(ts, cfg, anchor, n, ws, j + 1),
        b >= 0real,
        meets_rows(ts, cfg, anchor, n, ws, j as int, b),
        settled_by(null_space_upto_s(ts, cfg, anchor, n, ws, j).ho, b),
    ensures
        ({
            let st = null_space_upto_s(ts, cfg, anchor, n, ws, j).ho;
            let next = null_space_upto_s(ts, cfg, anchor, n, ws, j + 1).ho;
            let t = widened_s(ts[j as int], n);
            &&& next == ho_next_s(st, t, answer_s(ts, cfg, anchor, n, ws, j as int))
            &&& st.wf() && st.n() == n && t.wf() && t.n() == n
            &&& settled_by(next, b)
            &&& forall|i: int|
                0 <= i < t.f.len() ==> #[trigger] level_slack_s(
                    ts,
                    cfg,
                    anchor,
                    n,
                    ws,
                    j as int,
                )[i] >= -b
        }),
{
    reveal(ho_level_s);
    assert(ts[j as int].wf());
    assert(answer_fits(ts, cfg, anchor, n, ws, j as int));
    assert(answers_fit(ts, cfg, anchor, n, ws, j)) by {
        assert forall|i: int| 0 <= i < j implies #[trigger] answer_fits(
            ts,
            cfg,
            anchor,
            n,
            ws,
            i,
        ) by {}
    }
    lemma_upto_wf(ts, cfg, anchor, n, ws, j);
    let st = null_space_upto_s(ts, cfg, anchor, n, ws, j).ho;
    law_level_settles_by(
        st,
        widened_s(ts[j as int], n),
        answer_s(ts, cfg, anchor, n, ws, j as int),
        b,
    );
}

/// From row `p` on, `st` holds the inequalities of `t` with the slack `v`.
pub open spec fn holds_rows(st: HoState<real>, p: nat, t: Tsk<real>, v: Seq<real>) -> bool {
    &&& p + t.f.len() <= st.f.len()
    &&& st.d.nrows() == st.f.len()
    &&& st.slack.len() == st.f.len()
    &&& forall|i: int| 0 <= i < t.f.len() ==> #[trigger] holds_row(st, p, t, v, i)
}

/// [`holds_rows`] for one of them.
pub open spec fn holds_row(
    st: HoState<real>,
    p: nat,
    t: Tsk<real>,
    v: Seq<real>,
    i: int,
) -> bool {
    st.d.rows[p + i] == t.d.rows[i] && st.f[p + i] == t.f[i] && st.slack[p + i] == v[i]
}

/// A level appends its inequalities and their slack, and changes none of the
/// earlier ones.
proof fn lemma_append(
    st: HoState<real>,
    own: Tsk<real>,
    sol: Sol<real>,
    p: nat,
    t: Tsk<real>,
    v: Seq<real>,
)
    requires
        st.wf(),
        own.wf(),
    ensures
        holds_rows(st, p, t, v) ==> holds_rows(ho_next_s(st, own, sol), p, t, v),
        holds_rows(ho_next_s(st, own, sol), st.f.len(), own, own_slack_s(st, own, sol)),
{
    let next = ho_next_s(st, own, sol);
    let w = own_slack_s(st, own, sol);
    assert(next.slack == st.slack + w);
    assert(w.len() == own.f.len());
    if holds_rows(st, p, t, v) {
        assert forall|i: int| 0 <= i < t.f.len() implies #[trigger] holds_row(next, p, t, v, i) by {
            assert(holds_row(st, p, t, v, i));
        }
    }
    assert forall|i: int| 0 <= i < own.f.len() implies #[trigger] holds_row(
        next,
        st.f.len(),
        own,
        w,
        i,
    ) by {}
}

/// The rows of level `j` stay where they are.
proof fn lemma_rows_stay(
    ts: Seq<Tsk<real>>,
    cfg: SolveConfig<real>,
    anchor: Option<Seq<real>>,
    n: nat,
    ws: Option<Seq<Warm<real>>>,
    j: nat,
    k: nat,
)
    requires
        j < k <= ts.len(),
        levels_ok_s(ts),
        answers_fit(ts, cfg, anchor, n, ws, k),
    ensures
        holds_rows(
            null_space_upto_s(ts, cfg, anchor, n, ws, k).ho,
            null_space_upto_s(ts, cfg, anchor, n, ws, j).ho.f.len(),
            widened_s(ts[j as int], n),
            level_slack_s(ts, cfg, anchor, n, ws, j as int),
        ),
    decreases k,
{
    let e = (k - 1) as nat;
    assert(ts[e as int].wf());
    assert(answers_fit(ts, cfg, anchor, n, ws, e)) by {
        assert forall|i: int| 0 <= i < e implies #[trigger] answer_fits(
            ts,
            cfg,
            anchor,
            n,
            ws,
            i,
        ) by {}
    }
    lemma_upto_wf(ts, cfg, anchor, n, ws, e);
    let prev = null_space_upto_s(ts, cfg, anchor, n, ws, e).ho;
    let own = widened_s(ts[e as int], n);
    let sol = answer_s(ts, cfg, anchor, n, ws, e as int);
    assert(null_space_upto_s(ts, cfg, anchor, n, ws, k).ho == ho_next_s(prev, own, sol)) by {
        reveal(ho_level_s);
    }
    lemma_append(
        prev,
        own,
        sol,
        null_space_upto_s(ts, cfg, anchor, n, ws, j).ho.f.len(),
        widened_s(ts[j as int], n),
        level_slack_s(ts, cfg, anchor, n, ws, j as int),
    );
    if j < e {
        lemma_rows_stay(ts, cfg, anchor, n, ws, j, e);
    }
}

/// Whatever the levels below do, the final point keeps the inequalities of level
/// `j` with the slack that level `j` took, up to the excess `b` of the answers;
/// that slack is not below `-b`.
pub proof fn law_inequalities_kept(
    ts: Seq<Tsk<real>>,
    cfg: SolveConfig<real>,
    anchor: Option<Seq<real>>,
    n: nat,
    ws: Option<Seq<Warm<real>>>,
    j: nat,
    k: nat,
    b: real,
)
    requires
        j < k <= ts.len(),
        levels_ok_s(ts),
        answers_fit(ts, cfg, anchor, n, ws, k),
        b >= 0real,
        forall|i: int| 0 <= i < k ==> #[trigger] meets_rows(ts, cfg, anchor, n, ws, i, b),
    ensures
        ({
            let t = widened_s(ts[j as int], n);
            let x = null_space_upto_s(ts, cfg, anchor, n, ws, k).ho.x;
            let v = level_slack_s(ts, cfg, anchor, n, ws, j as int);
            forall|i: int|
                0 <= i < t.f.len() ==> #[trigger] mvec_s(t.d, x)[i] <= t.f[i] + v[i] + b && v[i]
                    >= -b
        }),
{
    let t = widened_s(ts[j as int], n);
    let end = null_space_upto_s(ts, cfg, anchor, n, ws, k).ho;
    let v = level_slack_s(ts, cfg, anchor, n, ws, j as int);
    let p = null_space_upto_s(ts, cfg, anchor, n, ws, j).ho.f.len();
    assert(ts[j as int].wf());
    law_cascade_settles(ts, cfg, anchor, n, ws, k, b);
    lemma_rows_stay(ts, cfg, anchor, n, ws, j, k);
    assert(answers_fit(ts, cfg, anchor, n, ws, j)) by {
        assert forall|i: int| 0 <= i < j implies #[trigger] answer_fits(
            ts,
            cfg,
            anchor,
            n,
            ws,
            i,
        ) by {}
    }
    assert(answers_fit(ts, cfg, anchor, n, ws, j + 1)) by {
        assert forall|i: int| 0 <= i < j + 1 implies #[trigger] answer_fits(
            ts,
            cfg,
            anchor,
            n,
            ws,
            i,
        ) by {}
    }
    law_cascade_settles(ts, cfg, anchor, n, ws, j, b);
    assert(meets_rows(ts, cfg, anchor, n, ws, j as int, b));
    lemma_cascade_step(ts, cfg, anchor, n, ws, j, b);
    let (lhs, rhs) = (mvec_s(end.d, end.x), vadd_s(end.f, end.slack));
    assert forall|i: int| 0 <= i < t.f.len() implies #[trigger] mvec_s(t.d, end.x)[i] <= t.f[i]
        + v[i] + b && v[i] >= -b by {
        assert(holds_row(end, p, t, v, i));
        assert(lhs[p + i] <= rhs[p + i] + b);
        assert(level_slack_s(ts, cfg, anchor, n, ws, j as int)[i] >= -b);
    }
}

/// The excess that an optimal answer of the active-set method may have over an
/// inequality: one feasibility tolerance per iteration, and ten where it was
/// polished.
pub open spec fn reach_s(cfg: QpConfig<real>) -> real {
    (cfg.max_iters as real + 10real) * cfg.feasibility_tol
}

/// An optimal answer of the active-set method exceeds no inequality by more than
/// [`reach_s`].
pub proof fn law_active_set_reach(
    args: QpArgs<real>,
    cfg: QpConfig<real>,
    prior: Option<Warm<real>>,
)
    requires
        args.wf(),
        args.x0_ok(cfg, prior),
        args.problem(cfg).bi.len() <= usize::MAX,
        cfg.solver == QpSolver::ActiveSet,
        cfg.feasibility_tol >= 0real,
        cfg.optimality_tol >= 0real,
        roots_exist(),
        solve_qp_s(args, cfg, prior).0.status == QpStatus::Optimal,
    ensures
        within_by(args.problem(cfg), solve_qp_s(args, cfg, prior).0.x, reach_s(cfg)),
        reach_s(cfg) >= 0real,
{
    reveal(solve_qp_s);
    let q = args.problem(cfg);
    assert(q.wf());
    let out = active_set_s(q, args.x0, cfg, prior);
    let t = cfg.feasibility_tol;
    let pre = prepare_s(q.h)->0;
    assert(prepare_s(q.h) is Some);
    law_prepared(q.h, pre);
    law_active_set(q, args.x0, cfg, prior, pre);
    law_active_set_exit(q, args.x0, cfg, prior);
    let (a, k) = (cfg.max_iters as real, (out.sol.iterations as int + 2) as real);
    assert(10real * t <= (a + 10real) * t) by (nonlinear_arith)
        requires
            a >= 0real,
            t >= 0real,
    ;
    assert(k * t <= (a + 10real) * t) by (nonlinear_arith)
        requires
            k <= a + 10real,
            t >= 0real,
    ;
    assert((a + 10real) * t >= 0real) by (nonlinear_arith)
        requires
            a >= 0real,
            t >= 0real,
    ;
    let x = out.sol.x;
    assert(slack_s(cfg, out.sol.iterations as int + 1) == k * t);
    assert forall|i: int| 0 <= i < q.bi.len() implies #[trigger] row_dot_s(q.ai, i, x) <= q.bi[i]
        + reach_s(cfg) by {
        assert(row_dot_s(q.ai, i, x) <= q.bi[i] + 10real * t || row_dot_s(q.ai, i, x) <= q.bi[i]
            + k * t);
    }
}

/// With the active-set method every inequality of every level is kept in the
/// end, with the slack that its level took, up to [`reach_s`].
pub proof fn law_active_set_cascade(
    ts: Seq<Tsk<real>>,
    cfg: SolveConfig<real>,
    anchor: Option<Seq<real>>,
    n: nat,
    ws: Option<Seq<Warm<real>>>,
    j: nat,
)
    requires
        j < ts.len(),
        levels_ok_s(ts),
        countable(ts, n),
        cfg.backend == QpSolver::ActiveSet,
        cfg.feasibility_tol >= 0real,
        cfg.optimality_tol >= 0real,
        roots_exist(),
    ensures
        ({
            let b = reach_s(qp_cfg_s(cfg));
            let t = widened_s(ts[j as int], n);
            let x = null_space_upto_s(ts, cfg, anchor, n, ws, ts.len()).ho.x;
            let v = level_slack_s(ts, cfg, anchor, n, ws, j as int);
            forall|i: int|
                0 <= i < t.f.len() ==> #[trigger] mvec_s(t.d, x)[i] <= t.f[i] + v[i] + b && v[i]
                    >= -b
        }),
{
    let qc = qp_cfg_s(cfg);
    let b = reach_s(qc);
    law_cascade_fits(ts, cfg, anchor, n, ws);
    assert(b >= 0real) by {
        let (a, t) = (qc.max_iters as real, qc.feasibility_tol);
        assert((a + 10real) * t >= 0real) by (nonlinear_arith)
            requires
                a >= 0real,
                t >= 0real,
        ;
    }
    assert forall|i: int| 0 <= i < ts.len() implies #[trigger] meets_rows(
        ts,
        cfg,
        anchor,
        n,
        ws,
        i,
        b,
    ) by {
        let all = null_space_upto_s(ts, cfg, anchor, n, ws, i as nat);
        let st = all.ho;
        let t = widened_s(ts[i], n);
        let sol = answer_s(ts, cfg, anchor, n, ws, i);
        let args = ho_args_s(st, t, Anchor { x: anchor, weight: cfg.prox_weight });
        assert(ts[i].wf());
        assert(answers_fit(ts, cfg, anchor, n, ws, i as nat)) by {
            assert forall|l: int| 0 <= l < i implies #[trigger] answer_fits(
                ts,
                cfg,
                anchor,
                n,
                ws,
                l,
            ) by {}
        }
        lemma_upto_wf(ts, cfg, anchor, n, ws, i as nat);
        if sol.status == QpStatus::Optimal {
            lemma_upto_rows(ts, cfg, anchor, n, ws, i as nat);
            lemma_total_mono(ts, n, (i + 1) as nat, ts.len());
            assert(rows_total_s(ts, n, (i + 1) as nat) == rows_total_s(ts, n, i as nat)
                + t.f.len());
            law_active_set_reach(args, qc, prior_s(all.ws, i));
            let q = args.problem(qc);
            assert(q.ai == ho_d_s(st, t) && q.bi == ho_f_s(st, t));
            let (lhs, rhs) = (mvec_s(ho_d_s(st, t), sol.x), ho_f_s(st, t));
            assert forall|l: int| 0 <= l < lhs.len() implies #[trigger] lhs[l] <= rhs[l] + b by {
                assert(row_dot_s(q.ai, l, sol.x) <= q.bi[l] + b);
            }
        }
    }
    law_inequalities_kept(ts, cfg, anchor, n, ws, j, ts.len(), b);
}

} // verus!
