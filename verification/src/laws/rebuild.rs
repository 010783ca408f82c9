//! Removing a row from the factor of the active rows gives the factor that is
//! built without it.

use vstd::prelude::*;

use crate::dense::{dot_s, mvec_s, transpose_s, vzeros_s, Mat};
use crate::exact::{lemma_dot_agree, lemma_dot_comm, lemma_dot_comm_upto, lemma_mvec_zero};
use crate::factor::{
    dot_rows_s, dropped_s, pivot_sq_s, project_s, remove_s, repair_s, solve_schur_s, try_push_s,
    update_l_s, update_v_s, Fac,
};
use crate::laws::factor::{
    active_s, column_ok, entry_ok, exact_factor, factors, law_empty_exact, law_project,
    law_push_exact, law_remove_exact, law_schur_factored, lemma_lit_pos, lemma_symmetric, schur_s,
};
use crate::laws::triangular::{
    law_chol_solve, law_gram_symmetric, law_gram_unique, law_lower_unique, lemma_lower_row, lower_s,
};
use crate::scalar::{is_root, lit_s, roots_exist, Arith};
use crate::triangular::{below_s, chol_solve_s, forward_s, lemma_forward_len, lower_rows};

verus! {

/// The pivot of row `i` passes the independence test that it passed when the
/// row was appended.
pub open spec fn strong_pivot(f: Fac<real>, i: int) -> bool {
    f.l[i][i] * f.l[i][i] > lit_s::<real>(1, -12) * dot_s(f.rows[i], f.y[i]).abs_s().max_s(1real)
}

/// Every pivot does.
pub open spec fn strong(f: Fac<real>) -> bool {
    forall|i: int| 0 <= i < f.len() ==> #[trigger] strong_pivot(f, i)
}

/// An appended row has a strong pivot.
pub proof fn lemma_push_strong(
    f: Fac<real>,
    row: Seq<real>,
    chol: Seq<Seq<real>>,
    h: Mat<real>,
    g: Fac<real>,
)
    requires
        exact_factor(f, h),
        factors(chol, h),
        row.len() == chol.len(),
        try_push_s(f, row, chol) == Some(g),
        roots_exist(),
        strong(f),
    ensures
        exact_factor(g, h),
        strong(g),
{
    law_push_exact(f, row, chol, h, g);
    let m = f.len();
    let y = chol_solve_s(chol, row);
    let w = forward_s(f.l, dot_rows_s(f, y));
    lemma_forward_len(f.l, dot_rows_s(f, y), m);
    let d = dot_s(row, y);
    let pv = pivot_sq_s(d, w);
    lemma_lit_pos(1, -12);
    let (t, u) = (lit_s::<real>(1, -12), d.abs_s().max_s(1real));
    assert(t * u > 0real) by (nonlinear_arith)
        requires
            t > 0real,
            u >= 1real,
    ;
    assert(is_root(pv, pv.sqrt_s()));
    assert forall|i: int| 0 <= i < g.len() implies #[trigger] strong_pivot(g, i) by {
        if i < m {
            assert(strong_pivot(f, i));
        }
    }
}

/// Repairing the factor makes no pivot smaller.
proof fn lemma_repair_grows(l: Seq<Seq<real>>, v: Seq<real>, k: int, j: nat)
    requires
        0 <= k,
        j <= v.len(),
        k + v.len() == l.len(),
        forall|i: int| 0 <= i < l.len() ==> (#[trigger] l[i]).len() == i + 1,
        roots_exist(),
    ensures
        repair_s(l, v, k, j).len() == l.len(),
        forall|i: int|
            0 <= i < l.len() ==> #[trigger] repair_s(l, v, k, j)[i][i] * repair_s(l, v, k, j)[i][i]
                >= l[i][i] * l[i][i],
    decreases v.len() - j,
{
    if j < v.len() {
        let q = k + j;
        let l2 = update_l_s(l, v, k, j as int);
        let v2 = update_v_s(l, v, k, j as int);
        lemma_repair_grows(l2, v2, k, j + 1);
        let e = repair_s(l, v, k, j);
        assert forall|i: int| 0 <= i < l.len() implies #[trigger] e[i][i] * e[i][i] >= l[i][i]
            * l[i][i] by {
            assert(e[i][i] * e[i][i] >= l2[i][i] * l2[i][i]);
            if i == q {
                let (a, b) = (l[q][q], v[j as int]);
                let s = a * a + b * b;
                assert(a * a >= 0real) by (nonlinear_arith);
                assert(b * b >= 0real) by (nonlinear_arith);
                assert(is_root(s, s.sqrt_s()));
            }
        }
    }
}

/// Removing a row leaves the pivots strong.
pub proof fn lemma_remove_strong(f: Fac<real>, k: int, h: Mat<real>)
    requires
        exact_factor(f, h),
        0 <= k < f.len(),
        strong(f),
        roots_exist(),
    ensures
        exact_factor(remove_s(f, k), h),
        strong(remove_s(f, k)),
{
    law_remove_exact(f, k, h);
    let g = remove_s(f, k);
    let (l, v) = (dropped_s(f.l, k), below_s(f.l, k));
    lemma_repair_grows(l, v, k, 0);
    assert forall|i: int| 0 <= i < g.len() implies #[trigger] strong_pivot(g, i) by {
        let j = if i < k {
            i
        } else {
            i + 1
        };
        assert(strong_pivot(f, j));
        assert(l[i][i] == f.l[j][j]);
        assert(g.l[i][i] * g.l[i][i] >= l[i][i] * l[i][i]);
    }
}

/// The first `m` rows of a factor.
pub open spec fn take_s(f: Fac<real>, m: nat) -> Fac<real> {
    Fac { rows: f.rows.take(m as int), y: f.y.take(m as int), l: f.l.take(m as int) }
}

proof fn lemma_take_exact(f: Fac<real>, m: nat, h: Mat<real>)
    requires
        exact_factor(f, h),
        m <= f.len(),
    ensures
        exact_factor(take_s(f, m), h),
{
    let g = take_s(f, m);
    assert forall|i: int| 0 <= i < m implies #[trigger] column_ok(g, h, i) by {
        assert(column_ok(f, h, i));
    }
    assert forall|i: int| 0 <= i < m implies #[trigger] g.l[i][i] > 0real by {
        assert(f.l[i][i] > 0real);
    }
    assert forall|i: int, j: int| 0 <= j <= i < m implies #[trigger] entry_ok(g, i, j) by {
        assert(entry_ok(f, i, j));
    }
}

/// Appending the next row to a prefix of a strong exact factor gives the next
/// prefix.
pub proof fn lemma_push_prefix(f: Fac<real>, m: nat, chol: Seq<Seq<real>>, h: Mat<real>)
    requires
        exact_factor(f, h),
        strong(f),
        factors(chol, h),
        m < f.len(),
        roots_exist(),
    ensures
        try_push_s(take_s(f, m), f.rows[m as int], chol) == Some(take_s(f, m + 1)),
{
    let p = take_s(f, m);
    let k = m as int;
    let row = f.rows[k];
    let y = chol_solve_s(chol, row);
    lemma_take_exact(f, m, h);
    law_chol_solve(chol, row);
    law_gram_symmetric(chol);
    assert(column_ok(f, h, k));
    law_gram_unique(chol, y, f.y[k]);
    let s = dot_rows_s(p, y);
    let w0 = f.l[k].take(k);
    let w = forward_s(p.l, s);
    lemma_forward_len(p.l, s, m);
    assert forall|i: int| 0 <= i < m implies #[trigger] p.l[i][i] != 0real by {
        assert(f.l[i][i] > 0real);
    }
    assert(lower_rows(p.l));
    crate::laws::triangular::law_forward(p.l, s);
    assert forall|j: int| 0 <= j < m implies mvec_s(lower_s(p.l), w0)[j] == s[j] by {
        lemma_lower_row(p.l, w0, j);
        assert(entry_ok(f, k, j));
        lemma_dot_comm_upto(f.l[k], f.l[j], (j + 1) as nat);
        lemma_dot_agree(f.l[j], f.l[k], f.l[j], w0, (j + 1) as nat);
        assert(column_ok(f, h, j));
        lemma_symmetric(h, f.y[j], y);
        lemma_dot_comm(row, f.y[j]);
    }
    assert(mvec_s(lower_s(p.l), w0) =~= s);
    law_lower_unique(p.l, w, w0);
    assert(entry_ok(f, k, k));
    lemma_dot_agree(f.l[k], f.l[k], w0, w0, m);
    let d = dot_s(row, y);
    let pv = pivot_sq_s(d, w);
    let lk = f.l[k][k];
    assert(lk > 0real);
    assert(pv == lk * lk);
    assert(strong_pivot(f, k));
    lemma_lit_pos(1, -12);
    let r = pv.sqrt_s();
    assert(pv >= 0real) by (nonlinear_arith)
        requires
            pv == lk * lk,
    ;
    assert(is_root(pv, r));
    assert(r == lk) by (nonlinear_arith)
        requires
            r * r == lk * lk,
            r >= 0real,
            lk > 0real,
    ;
    let g = take_s(f, m + 1);
    assert(p.rows.push(row) =~= g.rows);
    assert(p.y.push(y) =~= g.y);
    assert(w.push(r) =~= f.l[k]);
    assert(p.l.push(w.push(r)) =~= g.l);
}

/// The factor built by appending the first `n` rows one after the other to an
/// empty one, if none of them is refused.
pub open spec fn built_s<T: Arith>(rows: Seq<Seq<T>>, chol: Seq<Seq<T>>, n: nat) -> Option<Fac<T>>
    decreases n,
{
    if n == 0 {
        Some(Fac::empty())
    } else {
        match built_s(rows, chol, (n - 1) as nat) {
            Some(f) => try_push_s(f, rows[n - 1], chol),
            None => None,
        }
    }
}

proof fn lemma_built_strong(rows: Seq<Seq<real>>, chol: Seq<Seq<real>>, h: Mat<real>, n: nat)
    requires
        n <= rows.len(),
        factors(chol, h),
        forall|i: int| 0 <= i < rows.len() ==> (#[trigger] rows[i]).len() == chol.len(),
        roots_exist(),
    ensures
        built_s(rows, chol, n) matches Some(f) ==> exact_factor(f, h) && strong(f) && f.rows
            == rows.take(n as int),
    decreases n,
{
    if n == 0 {
        law_empty_exact(h);
        assert(Fac::<real>::empty().rows =~= rows.take(0));
    } else {
        lemma_built_strong(rows, chol, h, (n - 1) as nat);
        match built_s(rows, chol, (n - 1) as nat) {
            Some(f) => match try_push_s(f, rows[n - 1], chol) {
                Some(g) => {
                    lemma_push_strong(f, rows[n - 1], chol, h, g);
                    assert(g.rows =~= rows.take(n as int));
                },
                None => {},
            },
            None => {},
        }
    }
}

/// Building a strong exact factor anew from its rows gives it back.
proof fn lemma_built_again(f: Fac<real>, chol: Seq<Seq<real>>, h: Mat<real>, n: nat)
    requires
        exact_factor(f, h),
        strong(f),
        factors(chol, h),
        n <= f.len(),
        roots_exist(),
    ensures
        built_s(f.rows, chol, n) == Some(take_s(f, n)),
    decreases n,
{
    if n == 0 {
        assert(take_s(f, 0) =~= Fac::empty());
    } else {
        lemma_built_again(f, chol, h, (n - 1) as nat);
        lemma_push_prefix(f, (n - 1) as nat, chol, h);
    }
}

/// Removing row `k` from a factor that was built row by row gives the factor
/// that is built from the other rows in their order: none of them is refused,
/// and products, Schur solves and projections are the same.
pub proof fn law_remove_rebuilds(
    rows: Seq<Seq<real>>,
    chol: Seq<Seq<real>>,
    h: Mat<real>,
    f: Fac<real>,
    k: int,
)
    requires
        factors(chol, h),
        forall|i: int| 0 <= i < rows.len() ==> (#[trigger] rows[i]).len() == chol.len(),
        built_s(rows, chol, rows.len()) == Some(f),
        0 <= k < rows.len(),
        roots_exist(),
    ensures
        built_s(rows.remove(k), chol, (rows.len() - 1) as nat) == Some(remove_s(f, k)),
        remove_s(f, k).len() == rows.len() - 1,
        ({
            let g = built_s(rows.remove(k), chol, (rows.len() - 1) as nat)->0;
            &&& forall|z: Seq<real>| #[trigger] dot_rows_s(remove_s(f, k), z) == dot_rows_s(g, z)
            &&& forall|rhs: Seq<real>| #[trigger]
                solve_schur_s(remove_s(f, k), rhs) == solve_schur_s(g, rhs)
            &&& forall|p: Seq<real>, nu: Seq<real>| #[trigger]
                project_s(remove_s(f, k), p, nu) == project_s(g, p, nu)
        }),
{
    lemma_built_strong(rows, chol, h, rows.len());
    assert(rows.take(rows.len() as int) =~= rows);
    lemma_remove_strong(f, k, h);
    let g = remove_s(f, k);
    assert(g.rows =~= rows.remove(k));
    lemma_built_again(g, chol, h, g.len());
    assert(take_s(g, g.len()) =~= g);
}

/// The rows of an exact factor are independent: only zero multipliers combine
/// them to zero.
pub proof fn law_rows_independent(
    f: Fac<real>,
    chol: Seq<Seq<real>>,
    h: Mat<real>,
    v: Seq<real>,
)
    requires
        exact_factor(f, h),
        factors(chol, h),
        v.len() == f.len(),
        mvec_s(transpose_s(active_s(f, chol.len())), v) == vzeros_s::<real>(
            chol.len(),
        ),
    ensures
        v == vzeros_s::<real>(f.len()),
{
    let n = chol.len();
    let zero = vzeros_s::<real>(n);
    law_gram_symmetric(chol);
    law_project(f, h, zero, v);
    lemma_mvec_zero(h);
    let p = project_s(f, zero, v);
    assert(mvec_s(h, p) =~= zero);
    law_gram_unique(chol, p, zero);
    law_schur_factored(f, h);
    let none = vzeros_s::<real>(f.len());
    let s = schur_s(f);
    lemma_mvec_zero(s);
    assert forall|i: int| 0 <= i < f.len() implies mvec_s(s, v)[i] == 0real by {
        assert(dot_rows_s(f, p)[i] == dot_rows_s(f, zero)[i] - mvec_s(s, v)[i]);
    }
    assert(mvec_s(s, v) =~= mvec_s(s, none));
    law_gram_unique(f.l, v, none);
}

} // verus!
