//! Laws of the solve entry points and of sessions. Most hold in any arithmetic.

use vstd::prelude::*;

use crate::dense::vadd_s;
use crate::ho_qp::{ho_args_s, ho_level_s, ho_next_s, Anchor};
use crate::kernels::DenseKernels;
use crate::laws::qp::{law_workspace_cleared, law_workspace_ignored};
use crate::qp::{default_config_s, solve_qp_s, QpSolver, QpStatus, Warm};
use crate::scalar::{lit_s, Arith};
use crate::solve::{
    accumulated_s, bad_level_s, budget_args_s, budget_upto_s, check_s, default_solve_config_s,
    dispatch_s, first_bad_s, null_space_upto_s, prior_s, qp_cfg_s, resized_s, rho_s, session_s,
    shared_n_s, solve_s, widened_s, Degraded, HqpStrategy, Session, SolveConfig, SolveStatus,
    Solved, WbcError,
};
use crate::task::Tsk;

verus! {

proof fn lemma_first_bad<T>(ts: Seq<Tsk<T>>, n: nat, k: nat)
    ensures
        match first_bad_s(ts, n, k) {
            None => forall|i: int| 0 <= i < k ==> !#[trigger] bad_level_s(ts, n, i),
            Some(l) => 0 <= l < k && bad_level_s(ts, n, l) && forall|i: int|
                0 <= i < l ==> !#[trigger] bad_level_s(ts, n, i),
        },
    decreases k,
{
    if k > 0 {
        lemma_first_bad(ts, n, (k - 1) as nat);
    }
}

proof fn lemma_shared_n<T>(ts: Seq<Tsk<T>>, k: nat)
    ensures
        if shared_n_s(ts, k) == 0 {
            forall|i: int| 0 <= i < k ==> (#[trigger] ts[i]).n() == 0
        } else {
            exists|j: int|
                0 <= j < k && #[trigger] ts[j].n() == shared_n_s(ts, k) && forall|i: int|
                    0 <= i < j ==> (#[trigger] ts[i]).n() == 0
        },
    decreases k,
{
    if k > 0 {
        lemma_shared_n(ts, (k - 1) as nat);
        if shared_n_s(ts, (k - 1) as nat) == 0 && shared_n_s(ts, k) != 0 {
            assert(ts[k - 1].n() == shared_n_s(ts, k));
        }
    }
}

/// A solve is refused exactly where there is no level, or where a level has
/// decision variables and not as many as the first level that has any; the
/// error names the first such level.
pub proof fn law_refusals<T>(ts: Seq<Tsk<T>>)
    requires
        ts.len() <= usize::MAX,
        forall|i: int| 0 <= i < ts.len() ==> (#[trigger] ts[i]).n() <= usize::MAX,
    ensures
        ({
            let n = shared_n_s(ts, ts.len());
            &&& if n == 0 {
                forall|i: int| 0 <= i < ts.len() ==> (#[trigger] ts[i]).n() == 0
            } else {
                exists|j: int|
                    0 <= j < ts.len() && #[trigger] ts[j].n() == n && forall|i: int|
                        0 <= i < j ==> (#[trigger] ts[i]).n() == 0
            }
            &&& match check_s(ts) {
                Err(WbcError::NoLevels) => ts.len() == 0,
                Err(WbcError::DimMismatch { level, expected, found }) => {
                    &&& level < ts.len()
                    &&& expected == n
                    &&& found == ts[level as int].n()
                    &&& found != 0 && found != n
                    &&& forall|i: int| 0 <= i < level ==> !#[trigger] bad_level_s(ts, n, i)
                },
                Ok(m) => ts.len() > 0 && m == n && forall|i: int|
                    0 <= i < ts.len() ==> !#[trigger] bad_level_s(ts, n, i),
            }
        }),
{
    let n = shared_n_s(ts, ts.len());
    lemma_first_bad(ts, n, ts.len());
    lemma_shared_n(ts, ts.len());
}

/// A failure record says which of the first `k` levels failed first, if any.
pub open spec fn records(first: Degraded, k: nat, status: spec_fn(int) -> QpStatus) -> bool {
    match first {
        None => forall|i: int| 0 <= i < k ==> #[trigger] status(i) == QpStatus::Optimal,
        Some(p) => {
            &&& p.0 < k
            &&& p.1 == status(p.0 as int)
            &&& p.1 != QpStatus::Optimal
            &&& forall|i: int| 0 <= i < p.0 ==> #[trigger] status(i) == QpStatus::Optimal
        },
    }
}

/// How level `i` of the null-space cascade ended.
pub open spec fn null_status_s<T: DenseKernels>(
    ts: Seq<Tsk<T>>,
    cfg: SolveConfig<T>,
    anchor: Option<Seq<T>>,
    n: nat,
    ws: Option<Seq<Warm<T>>>,
) -> spec_fn(int) -> QpStatus {
    |i: int| null_space_upto_s(ts, cfg, anchor, n, ws, (i + 1) as nat).ho.status
}

/// How level `i` of the force-budget cascade ended.
pub open spec fn budget_status_s<T: DenseKernels>(
    ts: Seq<Tsk<T>>,
    cfg: SolveConfig<T>,
    n: nat,
    ws: Option<Seq<Warm<T>>>,
) -> spec_fn(int) -> QpStatus {
    |i: int|
        {
            let st = budget_upto_s(ts, cfg, n, ws, i as nat);
            let t = widened_s(ts[i], n);
            solve_qp_s(
                budget_args_s(t, rho_s(cfg), st.x, accumulated_s(st.iq, t)),
                qp_cfg_s(cfg),
                prior_s(st.ws, i),
            ).0.status
        }
}

/// The null-space cascade reports its first failing level, and holds its point
/// at every level that fails.
pub proof fn law_null_space_status<T: DenseKernels>(
    ts: Seq<Tsk<T>>,
    cfg: SolveConfig<T>,
    anchor: Option<Seq<T>>,
    n: nat,
    ws: Option<Seq<Warm<T>>>,
    k: nat,
)
    requires
        k <= ts.len() <= usize::MAX,
    ensures
        records(
            null_space_upto_s(ts, cfg, anchor, n, ws, k).first,
            k,
            null_status_s(ts, cfg, anchor, n, ws),
        ),
        k > 0 && null_space_upto_s(ts, cfg, anchor, n, ws, k).ho.status != QpStatus::Optimal
            ==> null_space_upto_s(ts, cfg, anchor, n, ws, k).ho.x == null_space_upto_s(
            ts,
            cfg,
            anchor,
            n,
            ws,
            (k - 1) as nat,
        ).ho.x,
    decreases k,
{
    reveal(ho_level_s);
    if k > 0 {
        law_null_space_status(ts, cfg, anchor, n, ws, (k - 1) as nat);
        let status = null_status_s(ts, cfg, anchor, n, ws);
        assert(status(k - 1) == null_space_upto_s(ts, cfg, anchor, n, ws, k).ho.status);
    }
}

/// The force-budget cascade reports its first failing level, and holds its
/// point at every level that fails.
pub proof fn law_budget_status<T: DenseKernels>(
    ts: Seq<Tsk<T>>,
    cfg: SolveConfig<T>,
    n: nat,
    ws: Option<Seq<Warm<T>>>,
    k: nat,
)
    requires
        k <= ts.len() <= usize::MAX,
    ensures
        records(
            budget_upto_s(ts, cfg, n, ws, k).first,
            k,
            budget_status_s(ts, cfg, n, ws),
        ),
        k > 0 && budget_status_s(ts, cfg, n, ws)(k - 1) != QpStatus::Optimal ==> budget_upto_s(
            ts,
            cfg,
            n,
            ws,
            k,
        ).x == budget_upto_s(ts, cfg, n, ws, (k - 1) as nat).x,
    decreases k,
{
    if k > 0 {
        law_budget_status(ts, cfg, n, ws, (k - 1) as nat);
        let status = budget_status_s(ts, cfg, n, ws);
        assert(status(k - 1) == budget_status_s(ts, cfg, n, ws)(k - 1));
    }
}

/// A solve is reported optimal exactly where every level reached its optimum.
pub proof fn law_optimal_iff_all<T: DenseKernels>(
    ts: Seq<Tsk<T>>,
    cfg: SolveConfig<T>,
    anchor: Option<Seq<T>>,
    n: nat,
    ws: Option<Seq<Warm<T>>>,
)
    requires
        ts.len() <= usize::MAX,
    ensures
        ({
            let status = match cfg.strategy {
                HqpStrategy::NullSpace => null_status_s(ts, cfg, anchor, n, ws),
                HqpStrategy::ForceBudgetCascade => budget_status_s(ts, cfg, n, ws),
            };
            match dispatch_s(ts, cfg, anchor, n, ws).0.status {
                SolveStatus::Optimal => forall|i: int|
                    0 <= i < ts.len() ==> #[trigger] status(i) == QpStatus::Optimal,
                SolveStatus::Degraded { level, status: s } => {
                    &&& level < ts.len()
                    &&& s == status(level as int)
                    &&& s != QpStatus::Optimal
                    &&& forall|i: int|
                        0 <= i < level ==> #[trigger] status(i) == QpStatus::Optimal
                },
            }
        }),
{
    law_null_space_status(ts, cfg, anchor, n, ws, ts.len());
    law_budget_status(ts, cfg, n, ws, ts.len());
}

proof fn lemma_unpulled<T: DenseKernels>(
    ts: Seq<Tsk<T>>,
    cfg: SolveConfig<T>,
    anchor: Option<Seq<T>>,
    n: nat,
    ws: Option<Seq<Warm<T>>>,
    k: nat,
)
    requires
        !T::zero_s().lt_s(cfg.prox_weight),
    ensures
        null_space_upto_s(ts, cfg, anchor, n, ws, k) == null_space_upto_s(
            ts,
            cfg,
            None,
            n,
            ws,
            k,
        ),
    decreases k,
{
    if k > 0 {
        reveal(ho_level_s);
        lemma_unpulled(ts, cfg, anchor, n, ws, (k - 1) as nat);
        let st = null_space_upto_s(ts, cfg, None, n, ws, (k - 1) as nat);
        let t = widened_s(ts[k - 1], n);
        let (a, b) = (
            Anchor { x: anchor, weight: cfg.prox_weight },
            Anchor { x: None, weight: cfg.prox_weight },
        );
        assert(ho_args_s(st.ho, t, a) == ho_args_s(st.ho, t, b));
    }
}

/// Without a positive weight an anchor has no effect: the solve is cold.
pub proof fn law_anchor_needs_weight<T: DenseKernels>(
    ts: Seq<Tsk<T>>,
    cfg: SolveConfig<T>,
    anchor: Option<Seq<T>>,
)
    requires
        !T::zero_s().lt_s(cfg.prox_weight),
    ensures
        solve_s(ts, cfg, anchor) == solve_s(ts, cfg, None),
{
    match check_s(ts) {
        Ok(n) => {
            lemma_unpulled(ts, cfg, anchor, n, None, ts.len());
        },
        Err(_) => {},
    }
}

/// The proximal anchor that a session uses.
pub open spec fn session_anchor_s<T: Arith>(se: Session<T>, cfg: SolveConfig<T>) -> Option<Seq<T>> {
    if T::zero_s().lt_s(cfg.prox_weight) {
        se.anchor
    } else {
        None
    }
}

proof fn lemma_null_stateless<T: DenseKernels>(
    ts: Seq<Tsk<T>>,
    cfg: SolveConfig<T>,
    anchor: Option<Seq<T>>,
    n: nat,
    ws: Seq<Warm<T>>,
    k: nat,
)
    requires
        cfg.backend != QpSolver::ActiveSet,
    ensures
        ({
            let a = null_space_upto_s(ts, cfg, anchor, n, Some(ws), k);
            let b = null_space_upto_s(ts, cfg, anchor, n, None, k);
            a.ho == b.ho && a.first == b.first && a.ws == Some(ws) && b.ws is None
        }),
    decreases k,
{
    if k > 0 {
        reveal(ho_level_s);
        lemma_null_stateless(ts, cfg, anchor, n, ws, (k - 1) as nat);
        let st = null_space_upto_s(ts, cfg, anchor, n, None, (k - 1) as nat);
        let t = widened_s(ts[k - 1], n);
        let a = Anchor { x: anchor, weight: cfg.prox_weight };
        law_workspace_ignored(ho_args_s(st.ho, t, a), qp_cfg_s(cfg), Some(ws[k - 1]));
    }
}

proof fn lemma_budget_stateless<T: DenseKernels>(
    ts: Seq<Tsk<T>>,
    cfg: SolveConfig<T>,
    n: nat,
    ws: Seq<Warm<T>>,
    k: nat,
)
    requires
        cfg.backend != QpSolver::ActiveSet,
    ensures
        ({
            let a = budget_upto_s(ts, cfg, n, Some(ws), k);
            let b = budget_upto_s(ts, cfg, n, None, k);
            a.x == b.x && a.iq == b.iq && a.first == b.first && a.ws == Some(ws) && b.ws is None
        }),
    decreases k,
{
    if k > 0 {
        lemma_budget_stateless(ts, cfg, n, ws, (k - 1) as nat);
        let st = budget_upto_s(ts, cfg, n, None, (k - 1) as nat);
        let t = widened_s(ts[k - 1], n);
        law_workspace_ignored(
            budget_args_s(t, rho_s(cfg), st.x, accumulated_s(st.iq, t)),
            qp_cfg_s(cfg),
            Some(ws[k - 1]),
        );
    }
}

/// With any other solver than the active-set method a session behaves exactly
/// like the free solve with the session's anchor.
pub proof fn law_session_stateless<T: DenseKernels>(
    se: Session<T>,
    ts: Seq<Tsk<T>>,
    cfg: SolveConfig<T>,
)
    requires
        cfg.backend != QpSolver::ActiveSet,
    ensures
        session_s(se, ts, cfg).0 == solve_s(ts, cfg, session_anchor_s(se, cfg)),
{
    match check_s(ts) {
        Ok(n) => {
            let ws = resized_s(se.workspaces, ts.len());
            lemma_null_stateless(ts, cfg, session_anchor_s(se, cfg), n, ws, ts.len());
            lemma_budget_stateless(ts, cfg, n, ws, ts.len());
        },
        Err(_) => {},
    }
}

/// The workspaces from level `k` on are still cold.
spec fn cold_from<T>(ws: Option<Seq<Warm<T>>>, k: nat, n: nat) -> bool {
    ws is Some && ws->0.len() == n && forall|i: int|
        k <= i < n ==> #[trigger] ws->0[i] == Warm::<T>::cold()
}

proof fn lemma_null_fresh<T: DenseKernels>(
    ts: Seq<Tsk<T>>,
    cfg: SolveConfig<T>,
    anchor: Option<Seq<T>>,
    n: nat,
    ws: Seq<Warm<T>>,
    k: nat,
)
    requires
        k <= ts.len(),
        cold_from(Some(ws), 0, ts.len()),
    ensures
        ({
            let a = null_space_upto_s(ts, cfg, anchor, n, Some(ws), k);
            let b = null_space_upto_s(ts, cfg, anchor, n, None, k);
            a.ho == b.ho && a.first == b.first && b.ws is None && cold_from(a.ws, k, ts.len())
        }),
    decreases k,
{
    if k > 0 {
        reveal(ho_level_s);
        lemma_null_fresh(ts, cfg, anchor, n, ws, (k - 1) as nat);
        let st = null_space_upto_s(ts, cfg, anchor, n, Some(ws), (k - 1) as nat);
        let t = widened_s(ts[k - 1], n);
        let a = Anchor { x: anchor, weight: cfg.prox_weight };
        assert(st.ws->0[k - 1] == Warm::<T>::cold());
        law_workspace_cleared(ho_args_s(st.ho, t, a), qp_cfg_s(cfg));
        let next = null_space_upto_s(ts, cfg, anchor, n, Some(ws), k);
        assert forall|i: int| k <= i < ts.len() implies #[trigger] next.ws->0[i]
            == Warm::<T>::cold() by {
            assert(st.ws->0[i] == Warm::<T>::cold());
        }
    }
}

proof fn lemma_budget_fresh<T: DenseKernels>(
    ts: Seq<Tsk<T>>,
    cfg: SolveConfig<T>,
    n: nat,
    ws: Seq<Warm<T>>,
    k: nat,
)
    requires
        k <= ts.len(),
        cold_from(Some(ws), 0, ts.len()),
    ensures
        ({
            let a = budget_upto_s(ts, cfg, n, Some(ws), k);
            let b = budget_upto_s(ts, cfg, n, None, k);
            a.x == b.x && a.iq == b.iq && a.first == b.first && b.ws is None && cold_from(
                a.ws,
                k,
                ts.len(),
            )
        }),
    decreases k,
{
    if k > 0 {
        lemma_budget_fresh(ts, cfg, n, ws, (k - 1) as nat);
        let st = budget_upto_s(ts, cfg, n, Some(ws), (k - 1) as nat);
        let t = widened_s(ts[k - 1], n);
        assert(st.ws->0[k - 1] == Warm::<T>::cold());
        law_workspace_cleared(
            budget_args_s(t, rho_s(cfg), st.x, accumulated_s(st.iq, t)),
            qp_cfg_s(cfg),
        );
        let next = budget_upto_s(ts, cfg, n, Some(ws), k);
        assert forall|i: int| k <= i < ts.len() implies #[trigger] next.ws->0[i]
            == Warm::<T>::cold() by {
            assert(st.ws->0[i] == Warm::<T>::cold());
        }
    }
}

/// The first solve of a fresh or reset session is the free cold solve,
/// whichever solver runs.
pub proof fn law_fresh_session<T: DenseKernels>(ts: Seq<Tsk<T>>, cfg: SolveConfig<T>)
    ensures
        session_s(Session::cold(), ts, cfg).0 == solve_s(ts, cfg, None),
{
    match check_s(ts) {
        Ok(n) => {
            let ws = resized_s(Seq::<Warm<T>>::empty(), ts.len());
            lemma_null_fresh(ts, cfg, None, n, ws, ts.len());
            lemma_budget_fresh(ts, cfg, n, ws, ts.len());
        },
        Err(_) => {},
    }
}

/// A refused solve leaves a session as it is; any other stores its solution as
/// the next anchor and keeps one workspace per level.
pub proof fn law_session_state<T: DenseKernels>(
    se: Session<T>,
    ts: Seq<Tsk<T>>,
    cfg: SolveConfig<T>,
)
    ensures
        match session_s(se, ts, cfg).0 {
            Err(e) => session_s(se, ts, cfg).1 == se,
            Ok(sol) => session_s(se, ts, cfg).1.anchor == Some(sol.x) && session_s(
                se,
                ts,
                cfg,
            ).1.workspaces.len() == ts.len(),
        },
{
    match check_s(ts) {
        Ok(n) => {
            let ws = resized_s(se.workspaces, ts.len());
            lemma_null_count(ts, cfg, session_anchor_s(se, cfg), n, ws, ts.len());
            lemma_budget_count(ts, cfg, n, ws, ts.len());
        },
        Err(_) => {},
    }
}

proof fn lemma_null_count<T: DenseKernels>(
    ts: Seq<Tsk<T>>,
    cfg: SolveConfig<T>,
    anchor: Option<Seq<T>>,
    n: nat,
    ws: Seq<Warm<T>>,
    k: nat,
)
    requires
        k <= ws.len(),
    ensures
        ({
            let a = null_space_upto_s(ts, cfg, anchor, n, Some(ws), k);
            a.ws is Some && a.ws->0.len() == ws.len()
        }),
    decreases k,
{
    if k > 0 {
        lemma_null_count(ts, cfg, anchor, n, ws, (k - 1) as nat);
    }
}

proof fn lemma_budget_count<T: DenseKernels>(
    ts: Seq<Tsk<T>>,
    cfg: SolveConfig<T>,
    n: nat,
    ws: Seq<Warm<T>>,
    k: nat,
)
    requires
        k <= ws.len(),
    ensures
        ({
            let a = budget_upto_s(ts, cfg, n, Some(ws), k);
            a.ws is Some && a.ws->0.len() == ws.len()
        }),
    decreases k,
{
    if k > 0 {
        lemma_budget_count(ts, cfg, n, ws, (k - 1) as nat);
    }
}

/// Every level is solved with the settings of the solve: its solver, limit and
/// tolerances, and without a proximal term of its own.
pub proof fn law_settings(cfg: SolveConfig<real>)
    ensures
        ({
            let q = qp_cfg_s(cfg);
            &&& q.solver == cfg.backend
            &&& q.max_iters == cfg.max_iters
            &&& q.feasibility_tol == cfg.feasibility_tol
            &&& q.optimality_tol == cfg.optimality_tol
            &&& q.prox_weight <= 0real
        }),
{
}

/// The settings that are used unless others are given: the null-space strategy
/// with the conic solver for a hierarchy, the active-set method for a single
/// program, five hundred iterations, tolerances of `1e-10` on the constraints
/// and `1e-8` on optimality, and no pull towards a point.
pub proof fn law_defaults()
    ensures
        ({
            let (s, q) = (default_solve_config_s::<real>(), default_config_s::<real>());
            &&& s.strategy == HqpStrategy::NullSpace
            &&& s.backend == QpSolver::Clarabel
            &&& q.solver == QpSolver::ActiveSet
            &&& s.max_iters == 500 && q.max_iters == 500
            &&& s.feasibility_tol == lit_s::<real>(1, -10)
            &&& q.feasibility_tol == lit_s::<real>(1, -10)
            &&& s.optimality_tol == lit_s::<real>(1, -8) && q.optimality_tol == lit_s::<real>(1, -8)
            &&& s.prox_weight == 0real && q.prox_weight == 0real
        }),
{
}

/// The solution of a hierarchy is where its strategy ends after the last level,
/// and is what the next solve is anchored to.
pub proof fn law_solved_point(
    ts: Seq<Tsk<real>>,
    cfg: SolveConfig<real>,
    anchor: Option<Seq<real>>,
    s: Solved<real>,
)
    requires
        solve_s(ts, cfg, anchor) == Ok::<Solved<real>, WbcError>(s),
    ensures
        ({
            let n = shared_n_s(ts, ts.len());
            &&& cfg.strategy == HqpStrategy::NullSpace ==> s.x == null_space_upto_s(
                ts,
                cfg,
                anchor,
                n,
                None,
                ts.len(),
            ).ho.x
            &&& cfg.strategy == HqpStrategy::ForceBudgetCascade ==> s.x == budget_upto_s(
                ts,
                cfg,
                n,
                None,
                ts.len(),
            ).x
            &&& s.warm_anchor == s.x
        }),
{
}

/// The state that a session left for level `i`: cold where it has none.
pub open spec fn left_for_s<T>(se: Session<T>, i: int) -> Warm<T> {
    if 0 <= i < se.workspaces.len() {
        se.workspaces[i]
    } else {
        Warm::cold()
    }
}

proof fn lemma_null_warm<T: DenseKernels>(
    ts: Seq<Tsk<T>>,
    cfg: SolveConfig<T>,
    anchor: Option<Seq<T>>,
    n: nat,
    ws: Seq<Warm<T>>,
    i: nat,
    k: nat,
)
    requires
        cfg.backend == QpSolver::ActiveSet,
        i < ws.len(),
        k <= ws.len(),
    ensures
        ({
            let before = null_space_upto_s(ts, cfg, anchor, n, Some(ws), i);
            let after = null_space_upto_s(ts, cfg, anchor, n, Some(ws), k);
            let args = ho_args_s(
                before.ho,
                widened_s(ts[i as int], n),
                Anchor { x: anchor, weight: cfg.prox_weight },
            );
            let (sol, stored) = solve_qp_s(args, qp_cfg_s(cfg), Some(ws[i as int]));
            &&& after.ws is Some && after.ws->0.len() == ws.len()
            &&& k <= i ==> after.ws->0[i as int] == ws[i as int]
            &&& k > i ==> stored == Some(after.ws->0[i as int])
            &&& k == i + 1 ==> after.ho == ho_next_s(before.ho, widened_s(ts[i as int], n), sol)
        }),
    decreases k,
{
    if k > 0 {
        reveal(ho_level_s);
        reveal(solve_qp_s);
        lemma_null_warm(ts, cfg, anchor, n, ws, i, (k - 1) as nat);
    }
}

proof fn lemma_budget_warm<T: DenseKernels>(
    ts: Seq<Tsk<T>>,
    cfg: SolveConfig<T>,
    n: nat,
    ws: Seq<Warm<T>>,
    i: nat,
    k: nat,
)
    requires
        cfg.backend == QpSolver::ActiveSet,
        i < ws.len(),
        k <= ws.len(),
    ensures
        ({
            let before = budget_upto_s(ts, cfg, n, Some(ws), i);
            let after = budget_upto_s(ts, cfg, n, Some(ws), k);
            let t = widened_s(ts[i as int], n);
            let args = budget_args_s(t, rho_s(cfg), before.x, accumulated_s(before.iq, t));
            let (sol, stored) = solve_qp_s(args, qp_cfg_s(cfg), Some(ws[i as int]));
            &&& after.ws is Some && after.ws->0.len() == ws.len()
            &&& k <= i ==> after.ws->0[i as int] == ws[i as int]
            &&& k > i ==> stored == Some(after.ws->0[i as int])
            &&& k == i + 1 && sol.status == QpStatus::Optimal ==> after.x == vadd_s(
                before.x,
                sol.x,
            )
        }),
    decreases k,
{
    if k > 0 {
        reveal(solve_qp_s);
        lemma_budget_warm(ts, cfg, n, ws, i, (k - 1) as nat);
    }
}

/// With the active-set method every level of the null-space cascade starts from
/// what the session's last solve left for that level, and leaves in the session
/// what its own solve stored.
pub proof fn law_session_warm<T: DenseKernels>(
    se: Session<T>,
    ts: Seq<Tsk<T>>,
    cfg: SolveConfig<T>,
    n: nat,
    ws: Seq<Warm<T>>,
    i: nat,
)
    requires
        check_s(ts) == Ok::<nat, WbcError>(n),
        cfg.strategy == HqpStrategy::NullSpace,
        cfg.backend == QpSolver::ActiveSet,
        ws.len() == ts.len(),
        forall|l: int| 0 <= l < ws.len() ==> #[trigger] ws[l] == left_for_s(se, l),
        i < ts.len(),
    ensures
        ({
            let anchor = session_anchor_s(se, cfg);
            let before = null_space_upto_s(ts, cfg, anchor, n, Some(ws), i);
            let after = null_space_upto_s(ts, cfg, anchor, n, Some(ws), i + 1);
            let t = widened_s(ts[i as int], n);
            let args = ho_args_s(before.ho, t, Anchor { x: anchor, weight: cfg.prox_weight });
            let (sol, stored) = solve_qp_s(args, qp_cfg_s(cfg), Some(left_for_s(se, i as int)));
            let (out, next) = session_s(se, ts, cfg);
            &&& stored == Some(next.workspaces[i as int])
            &&& after.ho == ho_next_s(before.ho, t, sol)
            &&& out matches Ok(found) && (i + 1 == ts.len() ==> found.x == after.ho.x)
        }),
{
    assert(resized_s(se.workspaces, ts.len()) =~= ws);
    lemma_null_warm(ts, cfg, session_anchor_s(se, cfg), n, ws, i, ts.len());
    lemma_null_warm(ts, cfg, session_anchor_s(se, cfg), n, ws, i, i + 1);
    assert(ws[i as int] == left_for_s(se, i as int));
}

/// The same of the force-budget cascade.
pub proof fn law_budget_session_warm<T: DenseKernels>(
    se: Session<T>,
    ts: Seq<Tsk<T>>,
    cfg: SolveConfig<T>,
    n: nat,
    ws: Seq<Warm<T>>,
    i: nat,
)
    requires
        check_s(ts) == Ok::<nat, WbcError>(n),
        cfg.strategy == HqpStrategy::ForceBudgetCascade,
        cfg.backend == QpSolver::ActiveSet,
        ws.len() == ts.len(),
        forall|l: int| 0 <= l < ws.len() ==> #[trigger] ws[l] == left_for_s(se, l),
        i < ts.len(),
    ensures
        ({
            let before = budget_upto_s(ts, cfg, n, Some(ws), i);
            let after = budget_upto_s(ts, cfg, n, Some(ws), i + 1);
            let t = widened_s(ts[i as int], n);
            let args = budget_args_s(t, rho_s(cfg), before.x, accumulated_s(before.iq, t));
            let (sol, stored) = solve_qp_s(args, qp_cfg_s(cfg), Some(left_for_s(se, i as int)));
            let (out, next) = session_s(se, ts, cfg);
            &&& stored == Some(next.workspaces[i as int])
            &&& sol.status == QpStatus::Optimal ==> after.x == vadd_s(before.x, sol.x)
            &&& out matches Ok(found) && (i + 1 == ts.len() ==> found.x == after.x)
        }),
{
    assert(resized_s(se.workspaces, ts.len()) =~= ws);
    lemma_budget_warm(ts, cfg, n, ws, i, ts.len());
    lemma_budget_warm(ts, cfg, n, ws, i, i + 1);
    assert(ws[i as int] == left_for_s(se, i as int));
}

} // verus!
