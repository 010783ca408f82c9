//! The entry point: a priority-ordered list of tasks in, the decision vector
//! out.
//!
//! Two things are switchable through [`SolveConfig`]: the strategy that
//! resolves the hierarchy ([`HqpStrategy`]) and the solver that runs each inner
//! problem ([`QpSolver`]).

use vstd::prelude::*;
use vstd::string::StringExecFns;

use crate::active_start::opt_warm;
use crate::dense::{
    identity_s, madd_s, mmul_s, mscale_s, mvec_s, stack_rows_s, stack_vec, transpose_s, vadd,
    vadd_s, vcopy, vsub, vsub_s, vzeros, vzeros_s, Mat, Matrix,
};
use crate::ho_qp::{ho_level_s, ho_start_s, Anchor, HoQp, HoState, WarmStart};
use crate::kernels::{Backend, DenseKernels};
use crate::qp::{
    opt_stored, opt_vec_ref, solve_qp_impl, solve_qp_s, QpArgs, QpConfig, QpSolver, QpStatus,
    QpWorkspace, Warm,
};
use crate::scalar::{lit_s, Arith, Scalar};
use crate::task::{empty_s, Task, Tsk};
use crate::text::{decimal, decimal_s};

verus! {

/// Which strategy resolves the priority stack.
#[derive(Debug, Clone, Copy, PartialEq, Eq, Structural)]
#[non_exhaustive]
pub enum HqpStrategy {
    /// Null-space cascade: each level is solved in the null space of all
    /// higher-priority equalities, with slack variables relaxing its
    /// inequalities. Strict lexicographic priority.
    NullSpace,
    /// Greedy force-budget cascade: each level solves a small least-squares
    /// problem for an increment on the committed solution, then commits it.
    /// Inequalities accumulate downward. Priority is greedy, not
    /// lexicographic: a lower level may degrade an upper task if the
    /// constraints leave it room.
    ForceBudgetCascade,
}

/// Configuration of [`solve`].
#[derive(Debug)]
pub struct SolveConfig<S> {
    /// How the priority hierarchy is resolved.
    pub strategy: HqpStrategy,
    /// Which solver runs each inner problem.
    pub backend: QpSolver,
    /// Maximum inner-solver iterations.
    pub max_iters: usize,
    /// Constraint-feasibility tolerance.
    pub feasibility_tol: S,
    /// Step and multiplier optimality tolerance.
    pub optimality_tol: S,
    /// Weight of the pull towards the previous solution; zero is a cold solve.
    /// In the force-budget cascade, the regularisation of each increment.
    pub prox_weight: S,
}

impl<S: Scalar> Clone for SolveConfig<S> {
    fn clone(&self) -> (r: SolveConfig<S>)
        ensures
            r == *self,
    {
        SolveConfig {
            strategy: self.strategy,
            backend: self.backend,
            max_iters: self.max_iters,
            feasibility_tol: self.feasibility_tol,
            optimality_tol: self.optimality_tol,
            prox_weight: self.prox_weight,
        }
    }
}

/// The default configuration: the null-space cascade over Clarabel, with the
/// tolerances of the QP defaults.
pub open spec fn default_solve_config_s<T: Arith>() -> SolveConfig<T> {
    SolveConfig {
        strategy: HqpStrategy::NullSpace,
        backend: QpSolver::Clarabel,
        max_iters: 500,
        feasibility_tol: lit_s::<T>(1, -10),
        optimality_tol: lit_s::<T>(1, -8),
        prox_weight: T::zero_s(),
    }
}

impl<S: Scalar> Default for SolveConfig<S> {
    fn default() -> (r: SolveConfig<S>)
        ensures
            r == default_solve_config_s::<S>(),
    {
        let qp: QpConfig<S> = QpConfig::default();
        SolveConfig {
            strategy: HqpStrategy::NullSpace,
            backend: QpSolver::Clarabel,
            max_iters: qp.max_iters,
            feasibility_tol: qp.feasibility_tol,
            optimality_tol: qp.optimality_tol,
            prox_weight: S::zero(),
        }
    }
}

/// The inner configuration of each level. The proximal term is applied by the
/// strategy.
pub open spec fn qp_cfg_s<T: Arith>(cfg: SolveConfig<T>) -> QpConfig<T> {
    QpConfig {
        solver: cfg.backend,
        max_iters: cfg.max_iters,
        feasibility_tol: cfg.feasibility_tol,
        optimality_tol: cfg.optimality_tol,
        prox_weight: T::zero_s(),
    }
}

impl<S: Scalar> SolveConfig<S> {
    fn qp_cfg(&self) -> (r: QpConfig<S>)
        ensures
            r == qp_cfg_s(*self),
    {
        QpConfig {
            solver: self.backend,
            max_iters: self.max_iters,
            feasibility_tol: self.feasibility_tol,
            optimality_tol: self.optimality_tol,
            prox_weight: S::zero(),
        }
    }
}

/// Outcome of a solve: which level, if any, failed to reach optimality.
#[derive(Debug, Clone, Copy, PartialEq, Eq, Structural)]
pub enum SolveStatus {
    /// Every level's inner problem reached optimality.
    Optimal,
    /// At least one level degraded: the first one and how it ended. The
    /// solution is still returned, with the last good point held there.
    Degraded { level: usize, status: QpStatus },
}

/// A solved hierarchy.
#[derive(Debug)]
pub struct Solution<S> {
    /// The global decision vector.
    pub x: Vec<S>,
    /// Optimal, or the first degraded level.
    pub status: SolveStatus,
    /// The same point, to start the next tick from.
    pub warm_anchor: Vec<S>,
}

/// The model of a [`Solution`].
#[verifier::ext_equal]
pub struct Solved<T> {
    pub x: Seq<T>,
    pub status: SolveStatus,
    pub warm_anchor: Seq<T>,
}

impl<S> View for Solution<S> {
    type V = Solved<S>;

    open spec fn view(&self) -> Solved<S> {
        Solved { x: self.x@, status: self.status, warm_anchor: self.warm_anchor@ }
    }
}

impl<S: Scalar> Clone for Solution<S> {
    fn clone(&self) -> (r: Solution<S>)
        ensures
            r@ == self@,
    {
        Solution {
            x: vcopy(&self.x),
            status: self.status,
            warm_anchor: vcopy(&self.warm_anchor),
        }
    }
}

/// Errors that prevent a solve from running at all.
#[derive(Debug, Clone, Copy, PartialEq, Eq, Structural)]
pub enum WbcError {
    /// The level list was empty.
    NoLevels,
    /// A level disagrees on the size of the decision vector.
    DimMismatch { level: usize, expected: usize, found: usize },
}

/// The text of an error.
pub open spec fn message_s(e: WbcError) -> Seq<char> {
    match e {
        WbcError::NoLevels => "solve: no priority levels given"@,
        WbcError::DimMismatch { level, expected, found } => "solve: level "@ + decimal_s(
            level as nat,
        ) + " has n_decision "@ + decimal_s(found as nat) + ", expected "@ + decimal_s(
            expected as nat,
        ),
    }
}

impl WbcError {
    /// The text of the error.
    pub fn message(&self) -> (s: String)
        ensures
            s@ == message_s(*self),
    {
        match self {
            WbcError::NoLevels => "solve: no priority levels given".to_owned(),
            WbcError::DimMismatch { level, expected, found } => {
                let mut s = "solve: level ".to_owned();
                s.append(decimal(*level).as_str());
                s.append(" has n_decision ");
                s.append(decimal(*found).as_str());
                s.append(", expected ");
                s.append(decimal(*expected).as_str());
                s
            },
        }
    }
}

/// The models of the levels.
pub open spec fn tasks_of<S>(levels: Seq<Task<S>>) -> Seq<Tsk<S>> {
    Seq::new(levels.len(), |i: int| levels[i]@)
}

/// The decision size that the levels share: that of the first level with any.
pub open spec fn shared_n_s<T>(ts: Seq<Tsk<T>>, n: nat) -> nat
    decreases n,
{
    if n == 0 {
        0
    } else {
        let head = shared_n_s(ts, (n - 1) as nat);
        if head > 0 {
            head
        } else {
            ts[n - 1].n()
        }
    }
}

/// Level `i` has another decision size than `n`. A level without decision
/// variables agrees with every size.
pub open spec fn bad_level_s<T>(ts: Seq<Tsk<T>>, n: nat, i: int) -> bool {
    ts[i].n() != 0 && ts[i].n() != n
}

/// The first of the first `k` levels that disagrees.
pub open spec fn first_bad_s<T>(ts: Seq<Tsk<T>>, n: nat, k: nat) -> Option<int>
    decreases k,
{
    if k == 0 {
        None
    } else {
        match first_bad_s(ts, n, (k - 1) as nat) {
            Some(i) => Some(i),
            None => if bad_level_s(ts, n, k - 1) {
                Some(k - 1)
            } else {
                None
            },
        }
    }
}

/// The shared decision size, or why there is none.
pub open spec fn check_s<T>(ts: Seq<Tsk<T>>) -> Result<nat, WbcError> {
    if ts.len() == 0 {
        Err(WbcError::NoLevels)
    } else {
        let n = shared_n_s(ts, ts.len());
        match first_bad_s(ts, n, ts.len()) {
            Some(i) => Err(
                WbcError::DimMismatch {
                    level: i as usize,
                    expected: n as usize,
                    found: ts[i].n() as usize,
                },
            ),
            None => Ok(n),
        }
    }
}

/// Every level is well formed, and one without decision variables has no rows
/// (unless none has any).
pub open spec fn levels_ok_s<T>(ts: Seq<Tsk<T>>) -> bool {
    forall|i: int|
        0 <= i < ts.len() ==> {
            let t = #[trigger] ts[i];
            t.wf() && (t.n() == 0 && shared_n_s(ts, ts.len()) > 0 ==> t.b.len() == 0 && t.f.len()
                == 0)
        }
}

/// The level over `n` decision variables.
pub open spec fn widened_s<T: Arith>(t: Tsk<T>, n: nat) -> Tsk<T> {
    if t.n() == n {
        t
    } else {
        empty_s(n)
    }
}

/// The first level that failed, and how it ended.
pub type Degraded = Option<(usize, QpStatus)>;

/// The failure record after level `k` ended with `status`.
pub open spec fn noted_s(first: Degraded, k: usize, status: QpStatus) -> Degraded {
    if first is None && status != QpStatus::Optimal {
        Some((k, status))
    } else {
        first
    }
}

pub open spec fn status_of_s(first: Degraded) -> SolveStatus {
    match first {
        None => SolveStatus::Optimal,
        Some(p) => SolveStatus::Degraded { level: p.0, status: p.1 },
    }
}

fn noted(first: Degraded, k: usize, status: QpStatus) -> (r: Degraded)
    ensures
        r == noted_s(first, k, status),
{
    match first {
        Some(p) => Some(p),
        None => match status {
            QpStatus::Optimal => None,
            _ => Some((k, status)),
        },
    }
}

fn status_of(first: Degraded) -> (r: SolveStatus)
    ensures
        r == status_of_s(first),
{
    match first {
        None => SolveStatus::Optimal,
        Some(p) => SolveStatus::Degraded { level: p.0, status: p.1 },
    }
}

/// The workspace of level `k`, if the solve has any.
pub open spec fn prior_s<T>(ws: Option<Seq<Warm<T>>>, k: int) -> Option<Warm<T>> {
    match ws {
        Some(w) => Some(w[k]),
        None => None,
    }
}

/// The workspaces after level `k` stored its state.
pub open spec fn stored_s<T>(ws: Option<Seq<Warm<T>>>, k: int, new: Option<Warm<T>>) -> Option<
    Seq<Warm<T>>,
> {
    if ws is Some && new is Some {
        Some(ws->0.update(k, new->0))
    } else {
        ws
    }
}

/// The state of the null-space cascade.
#[verifier::ext_equal]
pub struct NullState<T> {
    pub ho: HoState<T>,
    pub first: Degraded,
    pub ws: Option<Seq<Warm<T>>>,
}

/// The cascade after its first `k` levels.
pub open spec fn null_space_upto_s<T: DenseKernels>(
    ts: Seq<Tsk<T>>,
    cfg: SolveConfig<T>,
    anchor: Option<Seq<T>>,
    n: nat,
    ws: Option<Seq<Warm<T>>>,
    k: nat,
) -> NullState<T>
    decreases k,
{
    if k == 0 {
        NullState { ho: ho_start_s(n), first: None, ws }
    } else {
        let st = null_space_upto_s(ts, cfg, anchor, n, ws, (k - 1) as nat);
        let (ho, stored) = ho_level_s(
            st.ho,
            widened_s(ts[k - 1], n),
            Anchor { x: anchor, weight: cfg.prox_weight },
            qp_cfg_s(cfg),
            prior_s(st.ws, k - 1),
        );
        NullState {
            ho,
            first: noted_s(st.first, (k - 1) as usize, ho.status),
            ws: stored_s(st.ws, k - 1, stored),
        }
    }
}

/// The state of the force-budget cascade: the committed solution and the
/// inequalities accumulated so far.
#[verifier::ext_equal]
pub struct BudgetState<T> {
    pub x: Seq<T>,
    pub iq: Option<(Mat<T>, Seq<T>)>,
    pub first: Degraded,
    pub ws: Option<Seq<Warm<T>>>,
}

/// The inequalities with those of `t` behind them.
pub open spec fn accumulated_s<T>(iq: Option<(Mat<T>, Seq<T>)>, t: Tsk<T>) -> Option<
    (Mat<T>, Seq<T>),
> {
    if t.d.nrows() > 0 {
        match iq {
            None => Some((t.d, t.f)),
            Some(p) => Some((stack_rows_s(p.0, t.d), p.1 + t.f)),
        }
    } else {
        iq
    }
}

/// The Hessian of a level's increment: `A'A + rho I`.
pub open spec fn budget_h_s<T: Arith>(t: Tsk<T>, rho: T, n: nat) -> Mat<T> {
    let base = mscale_s(rho, identity_s(n));
    if t.a.nrows() > 0 {
        madd_s(base, mmul_s(transpose_s(t.a), t.a))
    } else {
        base
    }
}

/// The linear cost of a level's increment: `A'(A x - b)`.
pub open spec fn budget_g_s<T: Arith>(t: Tsk<T>, x: Seq<T>) -> Seq<T> {
    let base = vzeros_s::<T>(x.len());
    if t.a.nrows() > 0 {
        vadd_s(base, mvec_s(transpose_s(t.a), vsub_s(mvec_s(t.a, x), t.b)))
    } else {
        base
    }
}

/// The program of a level's increment under the accumulated inequalities.
pub open spec fn budget_args_s<T: Arith>(
    t: Tsk<T>,
    rho: T,
    x: Seq<T>,
    iq: Option<(Mat<T>, Seq<T>)>,
) -> QpArgs<T> {
    QpArgs {
        h: budget_h_s(t, rho, x.len()),
        c: budget_g_s(t, x),
        a_eq: None,
        b_eq: None,
        a_iq: match iq {
            Some(p) => Some(p.0),
            None => None,
        },
        b_iq: match iq {
            Some(p) => Some(vsub_s(p.1, mvec_s(p.0, x))),
            None => None,
        },
        x0: None,
    }
}

/// The regularisation of the increments: the proximal weight, at least `1e-8`.
pub open spec fn rho_s<T: Arith>(cfg: SolveConfig<T>) -> T {
    cfg.prox_weight.max_s(lit_s::<T>(1, -8))
}

/// The cascade after its first `k` levels. A level that does not reach its
/// optimum leaves the committed solution as it is.
pub open spec fn budget_upto_s<T: DenseKernels>(
    ts: Seq<Tsk<T>>,
    cfg: SolveConfig<T>,
    n: nat,
    ws: Option<Seq<Warm<T>>>,
    k: nat,
) -> BudgetState<T>
    decreases k,
{
    if k == 0 {
        BudgetState { x: vzeros_s(n), iq: None, first: None, ws }
    } else {
        let st = budget_upto_s(ts, cfg, n, ws, (k - 1) as nat);
        let t = widened_s(ts[k - 1], n);
        let iq = accumulated_s(st.iq, t);
        let (sol, stored) = solve_qp_s(
            budget_args_s(t, rho_s(cfg), st.x, iq),
            qp_cfg_s(cfg),
            prior_s(st.ws, k - 1),
        );
        BudgetState {
            x: if sol.status == QpStatus::Optimal {
                vadd_s(st.x, sol.x)
            } else {
                st.x
            },
            iq,
            first: noted_s(st.first, (k - 1) as usize, sol.status),
            ws: stored_s(st.ws, k - 1, stored),
        }
    }
}

/// The result at `x`, which is also the point to start the next tick from.
pub open spec fn solved_s<T>(x: Seq<T>, first: Degraded) -> Solved<T> {
    Solved { x, status: status_of_s(first), warm_anchor: x }
}

/// The solved hierarchy and the workspaces to store.
pub open spec fn dispatch_s<T: DenseKernels>(
    ts: Seq<Tsk<T>>,
    cfg: SolveConfig<T>,
    anchor: Option<Seq<T>>,
    n: nat,
    ws: Option<Seq<Warm<T>>>,
) -> (Solved<T>, Option<Seq<Warm<T>>>) {
    match cfg.strategy {
        HqpStrategy::NullSpace => {
            let st = null_space_upto_s(ts, cfg, anchor, n, ws, ts.len());
            (solved_s(st.ho.x, st.first), st.ws)
        },
        HqpStrategy::ForceBudgetCascade => {
            let st = budget_upto_s(ts, cfg, n, ws, ts.len());
            (solved_s(st.x, st.first), st.ws)
        },
    }
}

/// The whole solve without a session.
pub open spec fn solve_s<T: DenseKernels>(
    ts: Seq<Tsk<T>>,
    cfg: SolveConfig<T>,
    anchor: Option<Seq<T>>,
) -> Result<Solved<T>, WbcError> {
    match check_s(ts) {
        Err(e) => Err(e),
        Ok(n) => Ok(dispatch_s(ts, cfg, anchor, n, None).0),
    }
}

/// The view of a result.
pub open spec fn solved_view<S>(r: Result<Solution<S>, WbcError>) -> Result<Solved<S>, WbcError> {
    match r {
        Ok(s) => Ok(s@),
        Err(e) => Err(e),
    }
}

/// The models of the workspaces.
pub open spec fn warms_of<S>(ws: Seq<QpWorkspace<S>>) -> Seq<Warm<S>> {
    Seq::new(ws.len(), |i: int| ws[i]@)
}

/// The models of optional workspaces.
pub open spec fn opt_warms<S>(ws: Option<Vec<QpWorkspace<S>>>) -> Option<Seq<Warm<S>>> {
    match ws {
        Some(w) => Some(warms_of(w@)),
        None => None,
    }
}

/// One workspace per level, where there are any.
pub open spec fn ws_fit<S>(ws: Option<Vec<QpWorkspace<S>>>, n: nat) -> bool {
    ws matches Some(w) ==> w@.len() == n
}

fn prior_of<S>(ws: &Option<Vec<QpWorkspace<S>>>, k: usize) -> (r: Option<&QpWorkspace<S>>)
    requires
        ws matches Some(w) ==> k < w@.len(),
    ensures
        opt_warm(r) == prior_s(opt_warms(*ws), k as int),
{
    match ws {
        Some(w) => Some(&w[k]),
        None => None,
    }
}

fn put<S>(ws: Option<Vec<QpWorkspace<S>>>, k: usize, new: Option<QpWorkspace<S>>) -> (r: Option<
    Vec<QpWorkspace<S>>,
>)
    requires
        ws matches Some(w) ==> k < w@.len(),
    ensures
        opt_warms(r) == stored_s(opt_warms(ws), k as int, opt_stored(new)),
        forall|n: nat| ws_fit(ws, n) ==> #[trigger] ws_fit(r, n),
        r is Some == ws is Some,
{
    match ws {
        None => None,
        Some(w) => {
            let mut w = w;
            let ghost w0 = w@;
            if let Some(s) = new {
                w.set(k, s);
                assert(warms_of(w@) =~= warms_of(w0).update(k as int, s@));
            }
            Some(w)
        },
    }
}

fn check<S: Scalar>(levels: &[Task<S>]) -> (r: Result<usize, WbcError>)
    requires
        levels_ok_s(tasks_of(levels@)),
    ensures
        match r {
            Ok(n) => check_s(tasks_of(levels@)) == Ok::<nat, WbcError>(n as nat),
            Err(e) => check_s(tasks_of(levels@)) == Err::<nat, WbcError>(e),
        },
{
    let ghost ts = tasks_of(levels@);
    if levels.len() == 0 {
        return Err(WbcError::NoLevels);
    }
    let mut n: usize = 0;
    let mut i: usize = 0;
    while i < levels.len()
        invariant
            ts == tasks_of(levels@),
            i <= levels@.len(),
            n == shared_n_s(ts, i as nat),
        decreases levels@.len() - i,
    {
        if n == 0 {
            n = levels[i].n_decision();
        }
        i += 1;
    }
    let mut i: usize = 0;
    while i < levels.len()
        invariant
            ts == tasks_of(levels@),
            ts.len() > 0,
            i <= levels@.len(),
            n == shared_n_s(ts, ts.len()),
            first_bad_s(ts, n as nat, i as nat) is None,
        decreases levels@.len() - i,
    {
        let d = levels[i].n_decision();
        if d != 0 && d != n {
            proof {
                lemma_first_bad(ts, n as nat, (i + 1) as nat, ts.len());
            }
            return Err(WbcError::DimMismatch { level: i, expected: n, found: d });
        }
        i += 1;
    }
    Ok(n)
}

proof fn lemma_first_bad<T>(ts: Seq<Tsk<T>>, n: nat, k: nat, m: nat)
    requires
        k <= m,
        first_bad_s(ts, n, k) is Some,
    ensures
        first_bad_s(ts, n, m) == first_bad_s(ts, n, k),
    decreases m,
{
    if k < m {
        lemma_first_bad(ts, n, k, (m - 1) as nat);
    }
}

proof fn lemma_no_bad<T>(ts: Seq<Tsk<T>>, n: nat, k: nat, i: int)
    requires
        0 <= i < k,
        first_bad_s(ts, n, k) is None,
    ensures
        !bad_level_s(ts, n, i),
    decreases k,
{
    if i < k - 1 {
        lemma_no_bad(ts, n, (k - 1) as nat, i);
    }
}

fn widened<S: Scalar>(t: &Task<S>, n: usize) -> (r: Task<S>)
    requires
        t@.wf(),
    ensures
        r@ == widened_s(t@, n as nat),
        r@.wf(),
        r@.n() == n,
{
    if t.n_decision() == n {
        t.clone()
    } else {
        Task::empty(n)
    }
}

/// The null-space cascade: each level below the last, with the proximal anchor
/// and the first degraded level.
fn solve_null_space<S: Backend>(
    levels: &[Task<S>],
    cfg: &SolveConfig<S>,
    anchor: Option<&Vec<S>>,
    n: usize,
    ws: Option<Vec<QpWorkspace<S>>>,
) -> (r: (Solution<S>, Option<Vec<QpWorkspace<S>>>))
    requires
        levels_ok_s(tasks_of(levels@)),
        ws_fit(ws, levels@.len()),
        cfg.strategy == HqpStrategy::NullSpace,
    ensures
        (r.0@, opt_warms(r.1)) == dispatch_s(
            tasks_of(levels@),
            *cfg,
            opt_vec_ref(anchor),
            n as nat,
            opt_warms(ws),
        ),
        r.0.warm_anchor@ == r.0.x@,
        r.0.x@.len() == n,
        ws_fit(r.1, levels@.len()),
        r.1 is Some == ws is Some,
{
    let ghost ts = tasks_of(levels@);
    let ghost ws0 = opt_warms(ws);
    let qp_cfg = cfg.qp_cfg();
    let warm = WarmStart { x_prev: anchor, prox_weight: cfg.prox_weight };
    let mut ho: HoQp<S> = HoQp::start(n);
    let mut first: Degraded = None;
    let mut cur = ws;
    let mut k: usize = 0;
    while k < levels.len()
        invariant
            ts == tasks_of(levels@),
            levels_ok_s(ts),
            ws_fit(cur, levels@.len()),
            cur is Some == ws is Some,
            k <= levels@.len(),
            qp_cfg == qp_cfg_s(*cfg),
            warm@ == (Anchor { x: opt_vec_ref(anchor), weight: cfg.prox_weight }),
            ho@.wf(),
            ho@.n() == n,
            (NullState { ho: ho@, first, ws: opt_warms(cur) }) == null_space_upto_s(
                ts,
                *cfg,
                opt_vec_ref(anchor),
                n as nat,
                ws0,
                k as nat,
            ),
        decreases levels@.len() - k,
    {
        assert(ts[k as int].wf());
        let t = widened(&levels[k], n);
        let (next, stored) = ho.descend(&t, &warm, &qp_cfg, prior_of(&cur, k));
        first = noted(first, k, next.status());
        cur = put(cur, k, stored);
        ho = next;
        k += 1;
    }
    let x = vcopy(ho.solution());
    let warm_anchor = vcopy(ho.solution());
    (Solution { x, status: status_of(first), warm_anchor }, cur)
}

/// One level's increment program.
fn budget_cost<S: Scalar>(t: &Task<S>, rho: S, x: &Vec<S>) -> (r: (Matrix<S>, Vec<S>))
    requires
        t@.wf(),
        t@.n() == x@.len(),
    ensures
        r.0@ == budget_h_s(t@, rho, x@.len()),
        r.1@ == budget_g_s(t@, x@),
        r.0@.shaped(x@.len(), x@.len()),
        r.1@.len() == x@.len(),
{
    let n = x.len();
    let h = Matrix::identity(n).mscale(rho);
    let g = vzeros(n);
    if t.n_eq() > 0 {
        let at = t.a.transpose();
        let res = vsub(&t.a.apply(x), &t.b);
        (h.madd(&at.mmul(&t.a)), vadd(&g, &at.apply(&res)))
    } else {
        (h, g)
    }
}

/// The view of accumulated inequalities.
spec fn opt_iq<S>(iq: Option<(Matrix<S>, Vec<S>)>) -> Option<(Mat<S>, Seq<S>)> {
    match iq {
        Some(p) => Some((p.0@, p.1@)),
        None => None,
    }
}

spec fn iq_wf<S>(iq: Option<(Matrix<S>, Vec<S>)>, n: nat) -> bool {
    iq matches Some(p) ==> p.0@.shaped(p.1@.len(), n)
}

fn accumulated<S: Scalar>(iq: Option<(Matrix<S>, Vec<S>)>, t: &Task<S>) -> (r: Option<
    (Matrix<S>, Vec<S>),
>)
    requires
        t@.wf(),
        iq_wf(iq, t@.n()),
    ensures
        opt_iq(r) == accumulated_s(opt_iq(iq), t@),
        iq_wf(r, t@.n()),
{
    if t.n_iq() > 0 {
        match iq {
            None => Some((t.d.copied(), vcopy(&t.f))),
            Some((d, f)) => Some((d.stack_rows(&t.d), stack_vec(&f, &t.f))),
        }
    } else {
        iq
    }
}

/// The force-budget cascade: per level an increment on the committed solution,
/// under all inequalities so far. On a failure the increment is skipped and
/// the first failure reported. The anchor is unused.
fn solve_force_budget<S: Backend>(
    levels: &[Task<S>],
    cfg: &SolveConfig<S>,
    n: usize,
    ws: Option<Vec<QpWorkspace<S>>>,
    Ghost(anchor): Ghost<Option<Seq<S>>>,
) -> (r: (Solution<S>, Option<Vec<QpWorkspace<S>>>))
    requires
        levels_ok_s(tasks_of(levels@)),
        ws_fit(ws, levels@.len()),
        cfg.strategy == HqpStrategy::ForceBudgetCascade,
    ensures
        (r.0@, opt_warms(r.1)) == dispatch_s(
            tasks_of(levels@),
            *cfg,
            anchor,
            n as nat,
            opt_warms(ws),
        ),
        r.0.warm_anchor@ == r.0.x@,
        r.0.x@.len() == n,
        ws_fit(r.1, levels@.len()),
        r.1 is Some == ws is Some,
{
    let ghost ts = tasks_of(levels@);
    let ghost ws0 = opt_warms(ws);
    let qp_cfg = cfg.qp_cfg();
    let rho = cfg.prox_weight.larger(S::dec(1, -8));
    let mut x: Vec<S> = vzeros(n);
    let mut iq: Option<(Matrix<S>, Vec<S>)> = None;
    let mut first: Degraded = None;
    let mut cur = ws;
    let mut k: usize = 0;
    while k < levels.len()
        invariant
            ts == tasks_of(levels@),
            levels_ok_s(ts),
            ws_fit(cur, levels@.len()),
            cur is Some == ws is Some,
            k <= levels@.len(),
            qp_cfg == qp_cfg_s(*cfg),
            rho == rho_s(*cfg),
            x@.len() == n,
            iq_wf(iq, n as nat),
            (BudgetState { x: x@, iq: opt_iq(iq), first, ws: opt_warms(cur) }) == budget_upto_s(
                ts,
                *cfg,
                n as nat,
                ws0,
                k as nat,
            ),
        decreases levels@.len() - k,
    {
        assert(ts[k as int].wf());
        let t = widened(&levels[k], n);
        iq = accumulated(iq, &t);
        let (h, g) = budget_cost(&t, rho, &x);
        let (sol, stored) = match &iq {
            Some(p) => {
                let shifted = vsub(&p.1, &p.0.apply(&x));
                solve_qp_impl(
                    &h,
                    &g,
                    None,
                    None,
                    Some(&p.0),
                    Some(&shifted),
                    None,
                    &qp_cfg,
                    prior_of(&cur, k),
                )
            },
            None => solve_qp_impl(
                &h,
                &g,
                None,
                None,
                None,
                None,
                None,
                &qp_cfg,
                prior_of(&cur, k),
            ),
        };
        first = noted(first, k, sol.status);
        match sol.status {
            QpStatus::Optimal => {
                x = vadd(&x, &sol.x);
            },
            _ => {},
        }
        cur = put(cur, k, stored);
        k += 1;
    }
    let warm_anchor = vcopy(&x);
    (Solution { x, status: status_of(first), warm_anchor }, cur)
}

fn solve_dispatch<S: Backend>(
    levels: &[Task<S>],
    cfg: &SolveConfig<S>,
    anchor: Option<&Vec<S>>,
    n: usize,
    ws: Option<Vec<QpWorkspace<S>>>,
) -> (r: (Solution<S>, Option<Vec<QpWorkspace<S>>>))
    requires
        levels_ok_s(tasks_of(levels@)),
        ws_fit(ws, levels@.len()),
    ensures
        (r.0@, opt_warms(r.1)) == dispatch_s(
            tasks_of(levels@),
            *cfg,
            opt_vec_ref(anchor),
            n as nat,
            opt_warms(ws),
        ),
        r.0.warm_anchor@ == r.0.x@,
        r.0.x@.len() == n,
        ws_fit(r.1, levels@.len()),
        r.1 is Some == ws is Some,
{
    match cfg.strategy {
        HqpStrategy::NullSpace => solve_null_space(levels, cfg, anchor, n, ws),
        HqpStrategy::ForceBudgetCascade => {
            solve_force_budget(levels, cfg, n, ws, Ghost(opt_vec_ref(anchor)))
        },
    }
}

/// Solves a priority-ordered task list (index 0 is the highest priority) from
/// a cold start.
pub fn solve<S: Backend>(levels: &[Task<S>], cfg: &SolveConfig<S>) -> (r: Result<
    Solution<S>,
    WbcError,
>)
    requires
        levels_ok_s(tasks_of(levels@)),
    ensures
        solved_view(r) == solve_s(tasks_of(levels@), *cfg, None),
        r matches Ok(s) ==> s.warm_anchor@ == s.x@ && s.x@.len() == shared_n_s(
            tasks_of(levels@),
            levels@.len(),
        ),
{
    solve_warm(levels, cfg, None)
}

/// Solves with an optional anchor: the previous tick's solution, towards which
/// the null-space cascade pulls each level with the weight
/// [`SolveConfig::prox_weight`]. An anchor of another length is passed over.
pub fn solve_warm<S: Backend>(
    levels: &[Task<S>],
    cfg: &SolveConfig<S>,
    warm_anchor: Option<&Vec<S>>,
) -> (r: Result<Solution<S>, WbcError>)
    requires
        levels_ok_s(tasks_of(levels@)),
    ensures
        solved_view(r) == solve_s(tasks_of(levels@), *cfg, opt_vec_ref(warm_anchor)),
        r matches Ok(s) ==> s.warm_anchor@ == s.x@ && s.x@.len() == shared_n_s(
            tasks_of(levels@),
            levels@.len(),
        ),
{
    let n = match check(levels) {
        Ok(n) => n,
        Err(e) => {
            return Err(e);
        },
    };
    Ok(solve_dispatch(levels, cfg, warm_anchor, n, None).0)
}

/// The model of a [`Solver`].
#[verifier::ext_equal]
pub struct Session<T> {
    pub workspaces: Seq<Warm<T>>,
    pub anchor: Option<Seq<T>>,
}

impl<T> Session<T> {
    pub open spec fn cold() -> Session<T> {
        Session { workspaces: Seq::empty(), anchor: None }
    }
}

/// `n` workspaces: those there are, then cold ones.
pub open spec fn resized_s<T>(ws: Seq<Warm<T>>, n: nat) -> Seq<Warm<T>> {
    Seq::new(
        n,
        |i: int|
            if i < ws.len() {
                ws[i]
            } else {
                Warm::cold()
            },
    )
}

/// One solve of a session: the result and the session after it. An error
/// leaves the session as it is.
pub open spec fn session_s<T: DenseKernels>(
    se: Session<T>,
    ts: Seq<Tsk<T>>,
    cfg: SolveConfig<T>,
) -> (Result<Solved<T>, WbcError>, Session<T>) {
    match check_s(ts) {
        Err(e) => (Err(e), se),
        Ok(n) => {
            let anchor = if T::zero_s().lt_s(cfg.prox_weight) {
                se.anchor
            } else {
                None
            };
            let (sol, ws) = dispatch_s(
                ts,
                cfg,
                anchor,
                n,
                Some(resized_s(se.workspaces, ts.len())),
            );
            (Ok(sol), Session { workspaces: ws->0, anchor: Some(sol.x) })
        },
    }
}

/// A persistent solver session: one workspace per priority level, so that the
/// active-set solver starts each level from the previous tick's solution and
/// working set. A change of the level structure makes the affected workspaces
/// start cold.
#[derive(Debug)]
pub struct Solver<S> {
    workspaces: Vec<QpWorkspace<S>>,
    anchor: Option<Vec<S>>,
}

impl<S> View for Solver<S> {
    type V = Session<S>;

    closed spec fn view(&self) -> Session<S> {
        Session {
            workspaces: warms_of(self.workspaces@),
            anchor: crate::dense::opt_vec(self.anchor),
        }
    }
}

fn resized<S>(ws: Vec<QpWorkspace<S>>, n: usize) -> (r: Vec<QpWorkspace<S>>)
    ensures
        warms_of(r@) == resized_s(warms_of(ws@), n as nat),
{
    let mut r = ws;
    if r.len() > n {
        r.truncate(n);
    }
    while r.len() < n
        invariant
            r@.len() <= n,
            r@.len() < n ==> r@.len() >= ws@.len(),
            warms_of(r@) =~= resized_s(warms_of(ws@), r@.len()),
        decreases n - r@.len(),
    {
        let ghost r0 = r@;
        r.push(QpWorkspace::new());
        assert(warms_of(r@) =~= warms_of(r0).push(Warm::<S>::cold()));
    }
    r
}

impl<S: Scalar> Solver<S> {
    /// A session without state.
    pub fn new() -> (s: Solver<S>)
        ensures
            s@ == Session::<S>::cold(),
    {
        let s = Solver { workspaces: Vec::new(), anchor: None };
        assert(s@.workspaces =~= Seq::empty());
        s
    }

    /// Drops all state: the next solve is cold.
    pub fn reset(&mut self)
        ensures
            final(self)@ == Session::<S>::cold(),
    {
        self.workspaces.clear();
        self.anchor = None;
        assert(self@.workspaces =~= Seq::empty());
    }
}

impl<S: Scalar> Default for Solver<S> {
    fn default() -> (s: Solver<S>)
        ensures
            s@ == Session::<S>::cold(),
    {
        Solver::new()
    }
}

impl<S: Backend> Solver<S> {
    /// [`solve`] with this session's state. The stored solution is the
    /// proximal anchor where `cfg.prox_weight` is positive.
    pub fn solve(&mut self, levels: &[Task<S>], cfg: &SolveConfig<S>) -> (r: Result<
        Solution<S>,
        WbcError,
    >)
        requires
            levels_ok_s(tasks_of(levels@)),
        ensures
            solved_view(r) == session_s(old(self)@, tasks_of(levels@), *cfg).0,
            final(self)@ == session_s(old(self)@, tasks_of(levels@), *cfg).1,
            r matches Ok(s) ==> s.warm_anchor@ == s.x@ && s.x@.len() == shared_n_s(
                tasks_of(levels@),
                levels@.len(),
            ),
    {
        let n = match check(levels) {
            Ok(n) => n,
            Err(e) => {
                return Err(e);
            },
        };
        let ghost se = self@;
        let mut taken: Vec<QpWorkspace<S>> = Vec::new();
        std::mem::swap(&mut taken, &mut self.workspaces);
        let ws = resized(taken, levels.len());
        assert(ws@.len() == warms_of(ws@).len());
        let anchor: Option<&Vec<S>> = if S::zero().less_than(cfg.prox_weight) {
            match &self.anchor {
                Some(a) => Some(a),
                None => None,
            }
        } else {
            None
        };
        let (sol, ws) = solve_dispatch(levels, cfg, anchor, n, Some(ws));
        self.anchor = Some(vcopy(&sol.warm_anchor));
        if let Some(ws) = ws {
            self.workspaces = ws;
        }
        Ok(sol)
    }
}

} // verus!
