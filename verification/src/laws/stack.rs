//! Laws of stacks, reports and contact-force distribution, in exact arithmetic.

use vstd::prelude::*;

use crate::affine::{coef_affine_s, var_affine_s, Block};
use crate::contact::{
    contact_levels_s, distribute_s, hard_s, leg_s, vertical_s, with_leg_s, ContactError,
};
use crate::dense::{
    dot_upto_s, least_s, least_upto_s, mvec_s, norm_s, norm_sq_s, slice_s, vfill_s, vsub_s,
    vzeros_s, Mat,
};
use crate::exact::{lemma_dot_zero, lemma_norm_sq_nonneg, lemma_norm_sq_zero};
use crate::laws::affine::{law_coefficient_of_expression, law_var_selects};
use crate::laws::cascade::{
    countable, law_cascade_fits, law_inequalities_kept, level_slack_s, meets_rows,
};
use crate::laws::catalogue::law_friction_pyramid;
use crate::laws::hierarchy::lemma_upto_wf;
use crate::laws::task::{
    below, cost_s, keeps, law_ge, law_le, law_sum_cost, law_sum_keeps, residual_s,
};
use crate::scalar::{is_root, roots_exist, Arith};
use crate::solve::{
    check_s, default_solve_config_s, first_bad_s, null_space_upto_s, shared_n_s, widened_s,
    SolveConfig, SolveStatus, WbcError,
};
use crate::stack::{level_sum_s, report_s, task_report_s, to_tasks_s, Named, SolvedStack, Stk};
use crate::task::{ge_s, le_s, plus_s, Tsk};
use crate::tasks::friction_pyramid_s;

verus! {

/// The summed cost of the first `k` tasks of a level.
pub open spec fn total_cost_s(entries: Seq<Named<real>>, x: Seq<real>, k: nat) -> real
    decreases k,
{
    if k == 0 {
        0real
    } else {
        total_cost_s(entries, x, (k - 1) as nat) + cost_s(entries[k - 1].task, x)
    }
}

/// The summed task of a level is kept exactly where all of its tasks are, and
/// costs what they cost together.
pub proof fn law_level_sum(entries: Seq<Named<real>>, n: nat, k: nat, x: Seq<real>)
    requires
        k <= entries.len(),
        forall|i: int|
            0 <= i < k ==> (#[trigger] entries[i]).task.wf() && entries[i].task.n() == n,
    ensures
        level_sum_s(entries, n, k).wf(),
        level_sum_s(entries, n, k).n() == n,
        keeps(level_sum_s(entries, n, k), x) <==> forall|i: int|
            0 <= i < k ==> keeps((#[trigger] entries[i]).task, x),
        cost_s(level_sum_s(entries, n, k), x) == total_cost_s(entries, x, k),
    decreases k,
{
    if k > 0 {
        law_level_sum(entries, n, (k - 1) as nat, x);
        let head = level_sum_s(entries, n, (k - 1) as nat);
        let t = entries[k - 1].task;
        assert(t.wf() && t.n() == n);
        law_sum_keeps(head, t, x);
        law_sum_cost(head, t, x);
    }
}

proof fn lemma_least(a: Seq<real>, n: nat)
    requires
        0 < n <= a.len(),
    ensures
        forall|i: int| 0 <= i < n ==> least_upto_s(a, n) <= #[trigger] a[i],
        exists|i: int| 0 <= i < n && #[trigger] a[i] == least_upto_s(a, n),
    decreases n,
{
    if n == 1 {
        assert(a[0] == least_upto_s(a, n));
    } else {
        lemma_least(a, (n - 1) as nat);
        let m = least_upto_s(a, (n - 1) as nat);
        let i = choose|i: int| 0 <= i < n - 1 && #[trigger] a[i] == m;
        if a[n - 1] < m {
            assert(a[n - 1] == least_upto_s(a, n));
        } else {
            assert(a[i] == least_upto_s(a, n));
        }
    }
}

/// A reported margin is the tightest: it is at most the margin of every
/// inequality row of the task, and equal to that of one. So it is not negative
/// exactly where the task's inequalities hold. A task without inequalities has
/// none.
pub proof fn law_report_margin(e: Named<real>, x: Seq<real>)
    requires
        e.task.wf(),
    ensures
        match task_report_s(e, x).iq_margin {
            Some(m) => {
                &&& m >= 0real <==> keeps(e.task, x)
                &&& forall|i: int|
                    0 <= i < e.task.f.len() ==> m <= e.task.f[i] - #[trigger] mvec_s(e.task.d, x)[i]
                &&& exists|i: int|
                    0 <= i < e.task.f.len() && m == e.task.f[i] - #[trigger] mvec_s(e.task.d, x)[i]
            },
            None => e.task.f.len() == 0 && keeps(e.task, x),
        },
        task_report_s(e, x).name == e.name,
{
    let t = e.task;
    if t.d.nrows() > 0 {
        let gap = vsub_s(t.f, mvec_s(t.d, x));
        lemma_least(gap, gap.len());
        if least_s(gap) >= 0real {
            assert forall|i: int| 0 <= i < t.f.len() implies #[trigger] mvec_s(t.d, x)[i]
                <= t.f[i] by {
                assert(least_s(gap) <= gap[i]);
            }
        }
        if keeps(t, x) {
            let i = choose|i: int| 0 <= i < gap.len() && #[trigger] gap[i] == least_s(gap);
            assert(mvec_s(t.d, x)[i] <= t.f[i]);
        }
        assert forall|i: int| 0 <= i < t.f.len() implies least_s(gap) <= t.f[i] - #[trigger] mvec_s(
            t.d,
            x,
        )[i] by {
            assert(least_s(gap) <= gap[i]);
        }
        let i = choose|i: int| 0 <= i < gap.len() && #[trigger] gap[i] == least_s(gap);
        assert(least_s(gap) == t.f[i] - mvec_s(t.d, x)[i]);
    }
}

/// A reported residual is the length of the equality's residual: its square is
/// the task's least-squares cost. So it is zero exactly where the task's
/// equality holds. A task without equalities has none.
pub proof fn law_report_residual(e: Named<real>, x: Seq<real>)
    requires
        e.task.wf(),
        roots_exist(),
    ensures
        match task_report_s(e, x).eq_residual {
            Some(r) => r >= 0real && r * r == cost_s(e.task, x) && (r == 0real <==> residual_s(
                e.task,
                x,
            ) == vzeros_s::<real>(e.task.b.len())),
            None => e.task.b.len() == 0,
        },
{
    let t = e.task;
    if t.a.nrows() > 0 {
        let r = residual_s(t, x);
        lemma_norm_sq_nonneg(r, r.len());
        let s = norm_sq_s(r);
        assert(is_root(s, s.sqrt_s()));
        let v = norm_s(r);
        if v == 0real {
            assert(v * v == 0real) by (nonlinear_arith)
                requires
                    v == 0real,
            ;
            assert forall|i: int| 0 <= i < r.len() implies r[i] == 0real by {
                lemma_norm_sq_zero(r, r.len(), i);
            }
            assert(r =~= vzeros_s::<real>(t.b.len()));
        }
        if r == vzeros_s::<real>(t.b.len()) {
            lemma_dot_zero(r, r.len());
            assert(v == 0real) by (nonlinear_arith)
                requires
                    v * v == 0real,
            ;
        }
    }
}

/// The tasks of a stack, level by level: each level is kept exactly where every
/// one of its named tasks is, and costs what they cost together.
pub proof fn law_to_tasks(st: Stk<real>, i: int, x: Seq<real>)
    requires
        st.wf(),
        0 <= i < st.levels.len(),
    ensures
        to_tasks_s(st).len() == st.levels.len(),
        to_tasks_s(st)[i].wf(),
        to_tasks_s(st)[i].n() == st.n,
        keeps(to_tasks_s(st)[i], x) <==> forall|k: int|
            0 <= k < st.levels[i].entries.len() ==> keeps(
                (#[trigger] st.levels[i].entries[k]).task,
                x,
            ),
        cost_s(to_tasks_s(st)[i], x) == total_cost_s(
            st.levels[i].entries,
            x,
            st.levels[i].entries.len(),
        ),
{
    let entries = st.levels[i].entries;
    assert forall|k: int| 0 <= k < entries.len() implies (#[trigger] entries[k]).task.wf()
        && entries[k].task.n() == st.n by {
        assert(st.levels[i].entries[k].task.wf());
    }
    law_level_sum(entries, st.n, entries.len(), x);
}

/// A report has one entry per level and one per task, in order and under their
/// names, each measured at the solution; the level at which the solve degraded
/// is marked, and no other.
pub proof fn law_report(s: SolvedStack<real>, i: int, k: int)
    requires
        s.wf(),
        roots_exist(),
        0 <= i < s.stack.levels.len(),
        0 <= k < s.stack.levels[i].entries.len(),
    ensures
        report_s(s).len() == s.stack.levels.len(),
        report_s(s)[i].name == s.stack.levels[i].name,
        report_s(s)[i].degraded <==> (s.solution.status matches SolveStatus::Degraded {
            level,
            ..
        } && level == i),
        report_s(s)[i].tasks.len() == s.stack.levels[i].entries.len(),
        ({
            let (e, r) = (s.stack.levels[i].entries[k], report_s(s)[i].tasks[k]);
            &&& r.name == e.name
            &&& (r.eq_residual matches Some(v) ==> v >= 0real && v * v == cost_s(
                e.task,
                s.solution.x,
            ))
            &&& r.eq_residual is None <==> e.task.b.len() == 0
            &&& (r.iq_margin matches Some(m) ==> {
                &&& forall|j: int|
                    0 <= j < e.task.f.len() ==> m <= e.task.f[j] - #[trigger] mvec_s(
                        e.task.d,
                        s.solution.x,
                    )[j]
                &&& exists|j: int|
                    0 <= j < e.task.f.len() && m == e.task.f[j] - #[trigger] mvec_s(
                        e.task.d,
                        s.solution.x,
                    )[j]
            })
            &&& r.iq_margin is None <==> e.task.f.len() == 0
        }),
{
    let e = s.stack.levels[i].entries[k];
    assert(e.task.wf());
    law_report_margin(e, s.solution.x);
    law_report_residual(e, s.solution.x);
}

/// What the hard constraints ask of the force of one leg: in stance a push
/// within the friction pyramid and the cap, in swing nothing.
pub open spec fn leg_ok(f: Seq<real>, in_stance: bool, mu: real, fz_max: real) -> bool {
    if in_stance {
        &&& 0real <= f[2] <= fz_max
        &&& -(mu * f[2]) <= f[0] <= mu * f[2]
        &&& -(mu * f[2]) <= f[1] <= mu * f[2]
    } else {
        f == vzeros_s::<real>(3)
    }
}

proof fn lemma_leg(hard: Tsk<real>, b: Block, in_stance: bool, mu: real, fz_max: real, x: Seq<real>)
    requires
        hard.wf(),
        hard.n() == b.n,
        b.wf(),
        b.size == 3,
        x.len() == b.n,
    ensures
        ({
            let t = with_leg_s(hard, var_affine_s(b), in_stance, mu, fz_max);
            &&& t.wf()
            &&& t.n() == b.n
            &&& keeps(t, x) <==> keeps(hard, x) && leg_ok(
                slice_s(x, b.offset, 3),
                in_stance,
                mu,
                fz_max,
            )
        }),
{
    let e = var_affine_s::<real>(b);
    let f = slice_s(x, b.offset, 3);
    law_var_selects(b, x);
    if in_stance {
        let v = coef_affine_s(vertical_s::<real>(), e);
        let p = friction_pyramid_s(e, mu);
        let cap = le_s(v, vfill_s(1, fz_max));
        law_friction_pyramid(e, mu, x);
        law_coefficient_of_expression(vertical_s::<real>(), e, x);
        law_le(v, vfill_s(1, fz_max), x);
        law_sum_keeps(hard, p, x);
        law_sum_keeps(plus_s(hard, p), cap, x);
        let y = mvec_s(vertical_s::<real>(), f);
        reveal_with_fuel(dot_upto_s, 4);
        let (f0, f1, f2) = (f[0], f[1], f[2]);
        assert(0real * f0 == 0real) by (nonlinear_arith);
        assert(0real * f1 == 0real) by (nonlinear_arith);
        assert(1real * f2 == f2) by (nonlinear_arith);
        assert(y[0] == f[2]);
        let top = vfill_s(1, fz_max);
        if below(y, top) {
            assert(y[0] <= top[0]);
        }
        if f[2] <= fz_max {
            assert forall|i: int| 0 <= i < y.len() implies #[trigger] y[i] <= top[i] by {
                assert(i == 0);
            }
        }
    } else {
        let zero = vzeros_s::<real>(3);
        let (lo, hi) = (ge_s(e, zero), le_s(e, zero));
        law_ge(e, zero, x);
        law_le(e, zero, x);
        law_sum_keeps(hard, hi, x);
        law_sum_keeps(plus_s(hard, hi), lo, x);
        if below(zero, f) && below(f, zero) {
            assert forall|i: int| 0 <= i < 3 implies f[i] == 0real by {
                assert(zero[i] <= f[i]);
                assert(f[i] <= zero[i]);
            }
            assert(f =~= zero);
        }
        if f == zero {
            assert forall|i: int| 0 <= i < 3 implies #[trigger] zero[i] <= f[i] by {}
            assert forall|i: int| 0 <= i < 3 implies #[trigger] f[i] <= zero[i] by {}
        }
    }
}

/// The hard constraints of the contact-force distribution are kept exactly by
/// the forces that every leg may carry.
pub proof fn law_contact_constraints(
    stance: Seq<bool>,
    mu: real,
    fz_max: real,
    k: nat,
    x: Seq<real>,
)
    requires
        k <= stance.len(),
        x.len() == 3 * stance.len(),
    ensures
        ({
            let t = hard_s(stance, mu, fz_max, x.len(), k);
            &&& t.wf()
            &&& t.n() == x.len()
            &&& keeps(t, x) <==> forall|i: int|
                0 <= i < k ==> #[trigger] leg_ok(
                    slice_s(x, (3 * i) as nat, 3),
                    stance[i],
                    mu,
                    fz_max,
                )
        }),
    decreases k,
{
    if k > 0 {
        law_contact_constraints(stance, mu, fz_max, (k - 1) as nat, x);
        let n = x.len();
        let b = leg_s((k - 1) as nat, n);
        lemma_leg(
            hard_s(stance, mu, fz_max, n, (k - 1) as nat),
            b,
            stance[k - 1],
            mu,
            fz_max,
            x,
        );
        let i = k - 1;
        assert(slice_s(x, b.offset, 3) == slice_s(x, (3 * i) as nat, 3));
        let t = hard_s(stance, mu, fz_max, n, k);
        if keeps(t, x) {
            assert forall|j: int| 0 <= j < k implies #[trigger] leg_ok(
                slice_s(x, (3 * j) as nat, 3),
                stance[j],
                mu,
                fz_max,
            ) by {
                if j < k - 1 {
                }
            }
        }
        if forall|j: int|
            0 <= j < k ==> #[trigger] leg_ok(
                slice_s(x, (3 * j) as nat, 3),
                stance[j],
                mu,
                fz_max,
            ) {
            assert(leg_ok(slice_s(x, (3 * i) as nat, 3), stance[i], mu, fz_max));
        }
    }
}

/// The forces of a contact-force distribution keep the hard constraints up to
/// the slack `v` that their level took and the excess `b` of the conic answers;
/// where there is neither, every leg carries a force that it may carry.
///
/// How far the answers exceed the rows of their programs, and how much slack
/// they take, is up to the conic solver.
pub proof fn law_contact_hard(
    wrench_map: Mat<real>,
    wrench: Seq<real>,
    stance: Seq<bool>,
    mu: real,
    fz_max: real,
    reg: real,
    f: Seq<real>,
    b: real,
)
    requires
        wrench_map.wf(),
        distribute_s(wrench_map, wrench, stance, mu, fz_max, reg) == Ok::<
            Seq<real>,
            ContactError,
        >(f),
        countable(
            contact_levels_s(wrench_map, wrench, stance, mu, fz_max, reg),
            3 * stance.len(),
        ),
        b >= 0real,
        forall|i: int|
            0 <= i < 3 ==> #[trigger] meets_rows(
                contact_levels_s(wrench_map, wrench, stance, mu, fz_max, reg),
                default_solve_config_s(),
                None,
                3 * stance.len(),
                None,
                i,
                b,
            ),
    ensures
        ({
            let ts = contact_levels_s(wrench_map, wrench, stance, mu, fz_max, reg);
            let t = hard_s(stance, mu, fz_max, 3 * stance.len(), stance.len());
            let v = level_slack_s(
                ts,
                default_solve_config_s(),
                None,
                3 * stance.len(),
                None,
                0,
            );
            &&& f.len() == 3 * stance.len()
            &&& forall|i: int|
                0 <= i < t.f.len() ==> #[trigger] mvec_s(t.d, f)[i] <= t.f[i] + v[i] + b && v[i]
                    >= -b
            &&& b == 0real && (forall|i: int| 0 <= i < v.len() ==> #[trigger] v[i] <= 0real)
                ==> forall|l: int|
                0 <= l < stance.len() ==> #[trigger] leg_ok(
                    slice_s(f, (3 * l) as nat, 3),
                    stance[l],
                    mu,
                    fz_max,
                )
        }),
{
    let n = 3 * stance.len();
    let ts = contact_levels_s(wrench_map, wrench, stance, mu, fz_max, reg);
    let cfg = default_solve_config_s::<real>();
    let t = hard_s(stance, mu, fz_max, n, stance.len());
    law_contact_constraints(stance, mu, fz_max, stance.len(), vzeros_s::<real>(n));
    assert(ts.len() == 3 && ts[0] == t);
    reveal_with_fuel(shared_n_s, 4);
    assert forall|i: int| 0 <= i < 3 implies (#[trigger] ts[i]).wf() && ts[i].n() == n by {}
    assert(shared_n_s(ts, 3) == n);
    law_cascade_fits(ts, cfg, None, n, None);
    lemma_upto_wf(ts, cfg, None, n, None, 3);
    law_inequalities_kept(ts, cfg, None, n, None, 0, 3, b);
    assert(check_s(ts) == Ok::<nat, WbcError>(n)) by {
        reveal_with_fuel(first_bad_s, 4);
    }
    assert(f == null_space_upto_s(ts, cfg, None, n, None, 3).ho.x);
    law_contact_constraints(stance, mu, fz_max, stance.len(), f);
    let v = level_slack_s(ts, cfg, None, n, None, 0);
    if b == 0real && (forall|i: int| 0 <= i < v.len() ==> #[trigger] v[i] <= 0real) {
        lemma_rows_slack(ts, cfg, n);
        assert forall|i: int| 0 <= i < t.f.len() implies #[trigger] mvec_s(t.d, f)[i]
            <= t.f[i] by {
            assert(mvec_s(t.d, f)[i] <= t.f[i] + v[i] + b && v[i] >= -b);
            assert(v[i] <= 0real);
        }
        assert(keeps(t, f));
    }
}

/// The slack of a level has one entry per inequality.
proof fn lemma_rows_slack(ts: Seq<Tsk<real>>, cfg: SolveConfig<real>, n: nat)
    requires
        ts.len() > 0,
        ts[0].wf(),
    ensures
        level_slack_s(ts, cfg, None, n, None, 0).len() == widened_s(ts[0], n).f.len(),
{
}

} // verus!
