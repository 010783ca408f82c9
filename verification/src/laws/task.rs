//! Laws of tasks.

use vstd::prelude::*;

use crate::affine::{eval_s, Aff};
use crate::dense::{dot_s, mvec_s, norm_sq_s, vscale_s, vsub_s, Mat};
use crate::exact::{lemma_dot_concat, lemma_dot_scale, lemma_mscale_mvec, lemma_stack_mvec};
use crate::scalar::{is_root, Arith};
use crate::task::{
    empty_s, equality_s, ge_s, in_range_s, inequality_s, le_s, plus_s, soft_eq_s, weight_s, Tsk,
};

verus! {

/// How far `x` misses the equality of a task.
pub open spec fn residual_s(t: Tsk<real>, x: Seq<real>) -> Seq<real> {
    vsub_s(mvec_s(t.a, x), t.b)
}

/// The least-squares cost of a task at `x`.
pub open spec fn cost_s(t: Tsk<real>, x: Seq<real>) -> real {
    norm_sq_s(residual_s(t, x))
}

/// `x` keeps every inequality of a task.
pub open spec fn keeps(t: Tsk<real>, x: Seq<real>) -> bool {
    forall|i: int| 0 <= i < t.f.len() ==> #[trigger] mvec_s(t.d, x)[i] <= t.f[i]
}

/// Entry by entry at most.
pub open spec fn below(a: Seq<real>, b: Seq<real>) -> bool {
    forall|i: int| 0 <= i < a.len() ==> #[trigger] a[i] <= b[i]
}

/// The equality residual of a soft equality is the value of its expression. It
/// has no inequality.
pub proof fn law_soft_eq_residual(e: Aff<real>, x: Seq<real>)
    requires
        e.wf(),
        x.len() == e.n(),
    ensures
        residual_s(soft_eq_s(e), x) == eval_s(e, x),
        soft_eq_s(e).wf(),
        soft_eq_s(e).n() == e.n(),
        soft_eq_s(e).f.len() == 0,
{
    assert(residual_s(soft_eq_s(e), x) =~= eval_s(e, x));
}

/// An upper bound is kept exactly where the expression stays below it. It has no
/// equality.
pub proof fn law_le(e: Aff<real>, f: Seq<real>, x: Seq<real>)
    requires
        e.wf(),
        f.len() == e.out(),
        x.len() == e.n(),
    ensures
        keeps(le_s(e, f), x) <==> below(eval_s(e, x), f),
        le_s(e, f).wf(),
        le_s(e, f).n() == e.n(),
        le_s(e, f).b.len() == 0,
{
    let t = le_s(e, f);
    let y = eval_s(e, x);
    if keeps(t, x) {
        assert forall|i: int| 0 <= i < y.len() implies #[trigger] y[i] <= f[i] by {
            assert(mvec_s(t.d, x)[i] <= t.f[i]);
        }
    }
    if below(y, f) {
        assert forall|i: int| 0 <= i < t.f.len() implies #[trigger] mvec_s(t.d, x)[i]
            <= t.f[i] by {
            assert(y[i] <= f[i]);
        }
    }
}

/// A lower bound is kept exactly where the expression stays above it. It has no
/// equality.
pub proof fn law_ge(e: Aff<real>, lb: Seq<real>, x: Seq<real>)
    requires
        e.wf(),
        lb.len() == e.out(),
        x.len() == e.n(),
    ensures
        keeps(ge_s(e, lb), x) <==> below(lb, eval_s(e, x)),
        ge_s(e, lb).wf(),
        ge_s(e, lb).n() == e.n(),
        ge_s(e, lb).b.len() == 0,
{
    let t = ge_s(e, lb);
    let y = eval_s(e, x);
    lemma_mscale_mvec(0real, e.m, x);
    if keeps(t, x) {
        assert forall|i: int| 0 <= i < lb.len() implies #[trigger] lb[i] <= y[i] by {
            assert(mvec_s(t.d, x)[i] <= t.f[i]);
        }
    }
    if below(lb, y) {
        assert forall|i: int| 0 <= i < t.f.len() implies #[trigger] mvec_s(t.d, x)[i]
            <= t.f[i] by {
            assert(lb[i] <= y[i]);
        }
    }
}

/// A sum of tasks is kept exactly where both are.
pub proof fn law_sum_keeps(t: Tsk<real>, u: Tsk<real>, x: Seq<real>)
    requires
        t.wf(),
        u.wf(),
        u.n() == t.n(),
    ensures
        keeps(plus_s(t, u), x) <==> keeps(t, x) && keeps(u, x),
{
    let s = plus_s(t, u);
    lemma_stack_mvec(t.d, u.d, x);
    let m = t.f.len();
    if keeps(s, x) {
        assert forall|i: int| 0 <= i < t.f.len() implies #[trigger] mvec_s(t.d, x)[i]
            <= t.f[i] by {
            assert(mvec_s(s.d, x)[i] <= s.f[i]);
        }
        assert forall|i: int| 0 <= i < u.f.len() implies #[trigger] mvec_s(u.d, x)[i]
            <= u.f[i] by {
            assert(mvec_s(s.d, x)[m + i] <= s.f[m + i]);
        }
    }
    if keeps(t, x) && keeps(u, x) {
        assert forall|i: int| 0 <= i < s.f.len() implies #[trigger] mvec_s(s.d, x)[i]
            <= s.f[i] by {
            if i < m {
                assert(mvec_s(t.d, x)[i] <= t.f[i]);
            } else {
                assert(mvec_s(u.d, x)[i - m] <= u.f[i - m]);
            }
        }
    }
}

/// A range is kept exactly where the expression stays inside it. It has no
/// equality.
pub proof fn law_in_range(lb: Seq<real>, e: Aff<real>, ub: Seq<real>, x: Seq<real>)
    requires
        e.wf(),
        lb.len() == e.out(),
        ub.len() == e.out(),
        x.len() == e.n(),
    ensures
        keeps(in_range_s(lb, e, ub), x) <==> below(lb, eval_s(e, x)) && below(eval_s(e, x), ub),
        in_range_s(lb, e, ub).wf(),
        in_range_s(lb, e, ub).n() == e.n(),
        in_range_s(lb, e, ub).b.len() == 0,
{
    law_le(e, ub, x);
    law_ge(e, lb, x);
    law_sum_keeps(le_s(e, ub), ge_s(e, lb), x);
}

/// The cost of a sum of tasks is the sum of their costs.
pub proof fn law_sum_cost(t: Tsk<real>, u: Tsk<real>, x: Seq<real>)
    requires
        t.wf(),
        u.wf(),
        u.n() == t.n(),
    ensures
        cost_s(plus_s(t, u), x) == cost_s(t, x) + cost_s(u, x),
{
    lemma_stack_mvec(t.a, u.a, x);
    let (p, q) = (residual_s(t, x), residual_s(u, x));
    assert(residual_s(plus_s(t, u), x) =~= p + q);
    lemma_dot_concat(p, q, p, q);
}

/// A weight multiplies the cost and leaves the inequalities.
pub proof fn law_weight(t: Tsk<real>, w: real, x: Seq<real>)
    requires
        t.wf(),
        x.len() == t.n(),
        is_root(w, w.sqrt_s()),
    ensures
        cost_s(weight_s(t, w), x) == w * cost_s(t, x),
        keeps(weight_s(t, w), x) == keeps(t, x),
{
    let k = w.sqrt_s();
    let r = residual_s(t, x);
    let wr = residual_s(weight_s(t, w), x);
    lemma_mscale_mvec(k, t.a, x);
    assert forall|i: int| 0 <= i < r.len() implies wr[i] == k * r[i] by {
        let (p, q) = (mvec_s(t.a, x)[i], t.b[i]);
        assert(k * (p - q) == k * p - k * q) by (nonlinear_arith);
    }
    assert(wr =~= vscale_s(k, r));
    lemma_dot_scale(vscale_s(k, r), k, r);
    lemma_dot_scale(r, k, r);
    let d = dot_s(r, r);
    assert(k * (k * d) == (k * k) * d) by (nonlinear_arith);
    let u = weight_s(t, w);
    assert(u.d == t.d && u.f == t.f);
    if keeps(t, x) {
        assert forall|i: int| 0 <= i < u.f.len() implies #[trigger] mvec_s(u.d, x)[i]
            <= u.f[i] by {
            assert(mvec_s(t.d, x)[i] <= t.f[i]);
        }
    }
    if keeps(u, x) {
        assert forall|i: int| 0 <= i < t.f.len() implies #[trigger] mvec_s(t.d, x)[i]
            <= t.f[i] by {
            assert(mvec_s(u.d, x)[i] <= u.f[i]);
        }
    }
}

/// The empty task is neutral for sums, and sums are associative.
pub proof fn law_sum_monoid<T: Arith>(t: Tsk<T>, u: Tsk<T>, v: Tsk<T>)
    requires
        t.wf(),
        u.wf(),
        v.wf(),
        u.n() == t.n(),
        v.n() == t.n(),
    ensures
        plus_s(empty_s(t.n()), t) == t,
        plus_s(t, empty_s(t.n())) == t,
        plus_s(plus_s(t, u), v) == plus_s(t, plus_s(u, v)),
{
    assert(plus_s(empty_s(t.n()), t) =~= t);
    assert(plus_s(t, empty_s(t.n())) =~= t);
    assert(plus_s(plus_s(t, u), v) =~= plus_s(t, plus_s(u, v)));
}

/// A task from an equality block asks for that block and for no inequality, one
/// from an inequality block for that block and for no equality, and the empty
/// task for nothing.
pub proof fn law_blocks(m: Mat<real>, v: Seq<real>, x: Seq<real>)
    requires
        m.shaped(v.len(), m.ncols()),
    ensures
        equality_s(m, v).wf(),
        residual_s(equality_s(m, v), x) == vsub_s(mvec_s(m, x), v),
        equality_s(m, v).f.len() == 0,
        inequality_s(m, v).wf(),
        keeps(inequality_s(m, v), x) <==> below(mvec_s(m, x), v),
        inequality_s(m, v).b.len() == 0,
        empty_s::<real>(m.ncols()).wf(),
        empty_s::<real>(m.ncols()).n() == m.ncols(),
        empty_s::<real>(m.ncols()).b.len() == 0,
        empty_s::<real>(m.ncols()).f.len() == 0,
{
    let t = inequality_s(m, v);
    let y = mvec_s(m, x);
    if keeps(t, x) {
        assert forall|i: int| 0 <= i < y.len() implies #[trigger] y[i] <= v[i] by {
            assert(mvec_s(t.d, x)[i] <= t.f[i]);
        }
    }
    if below(y, v) {
        assert forall|i: int| 0 <= i < t.f.len() implies #[trigger] mvec_s(t.d, x)[i]
            <= t.f[i] by {
            assert(y[i] <= v[i]);
        }
    }
}

} // verus!
