//! Laws of the incrementally maintained factor: it stays exact as rows come
//! and go, and the steps computed through it solve the systems they stand for.

use vstd::prelude::*;

use crate::dense::{
    col_s, dot_s, dot_upto_s, lemma_mat_eq, mvec_s, norm_sq_s, transpose_s, vadd_s, vneg_s,
    vscale_s, vsub_s, vzeros_s, Mat,
};
use crate::exact::{
    lemma_adjoint, lemma_dot_agree, lemma_dot_comm, lemma_dot_comm_upto, lemma_mmul_mvec,
    lemma_mvec_add, lemma_mvec_scale, lemma_transpose_twice,
};
use crate::factor::{
    dot_rows_s, dropped_s, lemma_remove_wf, pivot_sq_s, project_s, project_upto_s, remove_s,
    repair_s, solve_schur_s, try_push_s, update_l_s, update_v_s, Fac,
};
use crate::laws::rotation::{lemma_over, lemma_rotation};
use crate::laws::triangular::{
    gram_s, law_chol_solve, law_forward, law_gram_symmetric, law_gram_unique, law_lower_unique,
    lemma_lower_row, lower_s, pivots,
};
use crate::scalar::{is_root, lit_s, pow10, roots_exist, Arith};
use crate::triangular::{below_s, chol_solve_s, forward_s, lemma_forward_len, lower_rows};

verus! {

pub proof fn lemma_pow10_pos(e: nat)
    ensures
        pow10(e) > 0real,
    decreases e,
{
    if e > 0 {
        lemma_pow10_pos((e - 1) as nat);
    }
}

/// A positive literal is positive.
pub proof fn lemma_lit_pos(m: int, e: int)
    requires
        0 < m <= i64::MAX,
        i32::MIN < e < 0,
    ensures
        lit_s::<real>(m, e) > 0real,
{
    let k = (-e) as nat;
    lemma_pow10_pos(k);
    let (a, b) = (m as real, pow10(k));
    assert(a > 0real);
    lemma_over(a, b);
    let q = a / b;
    assert(q > 0real) by (nonlinear_arith)
        requires
            b * q == a,
            a > 0real,
            b > 0real,
    ;
}

/// The active rows as a matrix.
pub open spec fn active_s(f: Fac<real>, n: nat) -> Mat<real> {
    Mat { cols: n, rows: f.rows }
}

/// The Schur complement `S_ij = a_i . H^-1 a_j`, by the cached columns.
pub open spec fn schur_s(f: Fac<real>) -> Mat<real> {
    Mat::build(f.len(), f.len(), |i: int, j: int| dot_s(f.rows[i], f.y[j]))
}

/// The cached column `i` solves `H y = a_i`.
pub open spec fn column_ok(f: Fac<real>, h: Mat<real>, i: int) -> bool {
    mvec_s(h, f.y[i]) == f.rows[i]
}

/// Entry `(i, j)` of `L * L^T` is that of the Schur complement.
pub open spec fn entry_ok(f: Fac<real>, i: int, j: int) -> bool {
    dot_upto_s(f.l[i], f.l[j], (j + 1) as nat) == dot_s(f.rows[i], f.y[j])
}

/// The factor is exact: the cached columns solve their systems, the pivots are
/// positive, and `L * L^T` is the Schur complement.
pub open spec fn exact_factor(f: Fac<real>, h: Mat<real>) -> bool {
    &&& f.wf(h.nrows())
    &&& forall|i: int| 0 <= i < f.len() ==> #[trigger] column_ok(f, h, i)
    &&& forall|i: int| 0 <= i < f.len() ==> #[trigger] f.l[i][i] > 0real
    &&& forall|i: int, j: int| 0 <= j <= i < f.len() ==> #[trigger] entry_ok(f, i, j)
}

/// A factor of the Hessian, ready for the substitutions.
pub open spec fn factors(chol: Seq<Seq<real>>, h: Mat<real>) -> bool {
    lower_rows(chol) && pivots(chol) && gram_s(chol) == h
}

/// A symmetric matrix moves from one side of a product to the other.
pub proof fn lemma_symmetric(h: Mat<real>, x: Seq<real>, y: Seq<real>)
    requires
        h.shaped(x.len(), x.len()),
        transpose_s(h) == h,
        y.len() == x.len(),
    ensures
        dot_s(mvec_s(h, x), y) == dot_s(x, mvec_s(h, y)),
{
    lemma_adjoint(h, x, y);
}

/// The empty factor is exact.
pub proof fn law_empty_exact(h: Mat<real>)
    ensures
        exact_factor(Fac::empty(), h),
{
}

/// Appending a row keeps the factor exact.
pub proof fn law_push_exact(
    f: Fac<real>,
    row: Seq<real>,
    chol: Seq<Seq<real>>,
    h: Mat<real>,
    g: Fac<real>,
)
    requires
        exact_factor(f, h),
        factors(chol, h),
        row.len() == chol.len(),
        try_push_s(f, row, chol) == Some(g),
        roots_exist(),
    ensures
        exact_factor(g, h),
{
    let n = chol.len();
    let m = f.len();
    let y = chol_solve_s(chol, row);
    let s = dot_rows_s(f, y);
    let w = forward_s(f.l, s);
    let d = dot_s(row, y);
    let pv = pivot_sq_s(d, w);
    law_chol_solve(chol, row);
    law_gram_symmetric(chol);
    lemma_forward_len(f.l, s, m);
    assert(lower_rows(f.l));
    assert forall|i: int| 0 <= i < m implies #[trigger] f.l[i][i] != 0real by {
        assert(f.l[i][i] > 0real);
    }
    law_forward(f.l, s);
    lemma_lit_pos(1, -12);
    let (t, u) = (lit_s::<real>(1, -12), d.abs_s().max_s(1real));
    assert(t * u > 0real) by (nonlinear_arith)
        requires
            t > 0real,
            u >= 1real,
    ;
    let r = pv.sqrt_s();
    assert(is_root(pv, r));
    assert(r > 0real) by (nonlinear_arith)
        requires
            r >= 0real,
            r * r == pv,
            pv > 0real,
    ;
    assert forall|i: int| 0 <= i < g.len() implies #[trigger] column_ok(g, h, i) by {
        if i < m {
            assert(column_ok(f, h, i));
        }
    }
    assert forall|i: int| 0 <= i < g.len() implies #[trigger] g.l[i][i] > 0real by {
        if i < m {
            assert(f.l[i][i] > 0real);
        }
    }
    assert forall|i: int, j: int| 0 <= j <= i < g.len() implies #[trigger] entry_ok(g, i, j) by {
        if i < m {
            assert(entry_ok(f, i, j));
        } else if j < m {
            lemma_lower_row(f.l, w, j);
            assert(mvec_s(lower_s(f.l), w)[j] == s[j]);
            lemma_dot_comm_upto(g.l[m as int], f.l[j], (j + 1) as nat);
            lemma_dot_agree(f.l[j], g.l[m as int], f.l[j], w, (j + 1) as nat);
            assert(column_ok(f, h, j));
            lemma_symmetric(h, f.y[j], y);
            lemma_dot_comm(row, f.y[j]);
        } else {
            lemma_dot_agree(g.l[m as int], g.l[m as int], w, w, m);
        }
    }
}

proof fn lemma_dot_update(a: Seq<real>, b: Seq<real>, q: int, x: real, y: real, n: nat)
    requires
        0 <= q < a.len(),
        q < b.len(),
        n <= a.len(),
        n <= b.len(),
    ensures
        q >= n ==> dot_upto_s(a.update(q, x), b.update(q, y), n) == dot_upto_s(a, b, n),
        q < n ==> dot_upto_s(a.update(q, x), b.update(q, y), n) == dot_upto_s(a, b, n) - a[q]
            * b[q] + x * y,
    decreases n,
{
    if n > 0 {
        lemma_dot_update(a, b, q, x, y, (n - 1) as nat);
    }
}

/// A product with one place taken out.
pub proof fn lemma_dot_remove(a: Seq<real>, b: Seq<real>, k: int, n: nat)
    requires
        0 <= k <= n,
        n < a.len(),
        n < b.len(),
    ensures
        dot_upto_s(a.remove(k), b.remove(k), n) + a[k] * b[k] == dot_upto_s(a, b, n + 1),
    decreases n,
{
    if k == n {
        lemma_dot_agree(a.remove(k), b.remove(k), a, b, n);
    } else {
        lemma_dot_remove(a, b, k, (n - 1) as nat);
    }
}

/// Half way through the repair: `L * L^T` plus what `v` still has to bring in
/// below column `k + j` is the target.
spec fn pending(
    l: Seq<Seq<real>>,
    v: Seq<real>,
    k: int,
    j: int,
    i: int,
    p: int,
    goal: spec_fn(int, int) -> real,
) -> bool {
    dot_upto_s(l[i], l[p], (p + 1) as nat) + (if p >= k + j {
        v[i - k] * v[p - k]
    } else {
        0real
    }) == goal(i, p)
}

spec fn half_way(
    l: Seq<Seq<real>>,
    v: Seq<real>,
    k: int,
    j: int,
    goal: spec_fn(int, int) -> real,
) -> bool {
    &&& 0 <= k
    &&& 0 <= j <= v.len()
    &&& k + v.len() == l.len()
    &&& forall|i: int| 0 <= i < l.len() ==> (#[trigger] l[i]).len() == i + 1
    &&& forall|i: int| 0 <= i < l.len() ==> #[trigger] l[i][i] > 0real
    &&& forall|i: int, p: int|
        0 <= p <= i < l.len() ==> #[trigger] pending(l, v, k, j, i, p, goal)
}

proof fn lemma_repair_step(
    l: Seq<Seq<real>>,
    v: Seq<real>,
    k: int,
    j: int,
    goal: spec_fn(int, int) -> real,
)
    requires
        half_way(l, v, k, j, goal),
        j < v.len(),
        roots_exist(),
    ensures
        half_way(update_l_s(l, v, k, j), update_v_s(l, v, k, j), k, j + 1, goal),
{
    let q = k + j;
    let (lq, vq) = (l[q][q], v[j]);
    let sq = lq * lq + vq * vq;
    assert(l[q][q] > 0real);
    assert(sq > 0real) by (nonlinear_arith)
        requires
            sq == lq * lq + vq * vq,
            lq > 0real,
    ;
    let r = lq.hypot_s(vq);
    assert(is_root(sq, sq.sqrt_s()));
    assert(r > 0real) by (nonlinear_arith)
        requires
            r >= 0real,
            r * r == sq,
            sq > 0real,
    ;
    let (l2, v2) = (update_l_s(l, v, k, j), update_v_s(l, v, k, j));
    assert forall|i: int| 0 <= i < l2.len() implies #[trigger] l2[i][i] > 0real by {
        assert(l[i][i] > 0real);
    }
    assert forall|i: int, p: int| 0 <= p <= i < l2.len() implies #[trigger] pending(
        l2,
        v2,
        k,
        j + 1,
        i,
        p,
        goal,
    ) by {
        assert(pending(l, v, k, j, i, p, goal));
        let n = (p + 1) as nat;
        if i < q {
        } else if p < q {
            lemma_dot_agree(l2[i], l2[p], l[i], l[p], n);
        } else if p == q {
            lemma_dot_agree(l2[i], l2[p], l[i], l[p], q as nat);
            lemma_rotation(lq, r, vq, l[i][q], v[i - k], l[i][q], v[i - k]);
        } else {
            lemma_dot_update(l[i], l[p], q, l2[i][q], l2[p][q], n);
            lemma_rotation(lq, r, vq, l[i][q], v[i - k], l[p][q], v[p - k]);
        }
    }
}

proof fn lemma_repair(
    l: Seq<Seq<real>>,
    v: Seq<real>,
    k: int,
    j: nat,
    goal: spec_fn(int, int) -> real,
)
    requires
        half_way(l, v, k, j as int, goal),
        roots_exist(),
    ensures
        half_way(repair_s(l, v, k, j), v, k, v.len() as int, goal),
    decreases v.len() - j,
{
    if j < v.len() {
        lemma_repair_step(l, v, k, j as int, goal);
        let (l2, v2) = (update_l_s(l, v, k, j as int), update_v_s(l, v, k, j as int));
        lemma_repair(l2, v2, k, j + 1, goal);
        let e = repair_s(l, v, k, j);
        assert forall|i: int, p: int| 0 <= p <= i < e.len() implies #[trigger] pending(
            e,
            v,
            k,
            v.len() as int,
            i,
            p,
            goal,
        ) by {
            assert(pending(e, v2, k, v2.len() as int, i, p, goal));
        }
    }
}

/// Deleting a row keeps the factor exact.
pub proof fn law_remove_exact(f: Fac<real>, k: int, h: Mat<real>)
    requires
        exact_factor(f, h),
        0 <= k < f.len(),
        roots_exist(),
    ensures
        exact_factor(remove_s(f, k), h),
{
    let g = remove_s(f, k);
    let (l, v) = (dropped_s(f.l, k), below_s(f.l, k));
    let goal = |i: int, p: int| dot_s(g.rows[i], g.y[p]);
    assert forall|i: int| 0 <= i < l.len() implies #[trigger] l[i][i] > 0real by {
        if i < k {
            assert(f.l[i][i] > 0real);
        } else {
            assert(f.l[i + 1][i + 1] > 0real);
        }
    }
    assert forall|i: int, p: int| 0 <= p <= i < l.len() implies #[trigger] pending(
        l,
        v,
        k,
        0,
        i,
        p,
        goal,
    ) by {
        if i < k {
            assert(entry_ok(f, i, p));
        } else if p < k {
            assert(entry_ok(f, i + 1, p));
            lemma_dot_agree(l[i], l[p], f.l[i + 1], f.l[p], (p + 1) as nat);
        } else {
            assert(entry_ok(f, i + 1, p + 1));
            lemma_dot_remove(f.l[i + 1], f.l[p + 1], k, (p + 1) as nat);
        }
    }
    lemma_repair(l, v, k, 0, goal);
    lemma_remove_wf(f, k, h.nrows());
    assert forall|i: int| 0 <= i < g.len() implies #[trigger] column_ok(g, h, i) by {
        assert(column_ok(f, h, if i < k { i } else { i + 1 }));
    }
    assert forall|i: int, j: int| 0 <= j <= i < g.len() implies #[trigger] entry_ok(g, i, j) by {
        assert(pending(g.l, v, k, v.len() as int, i, j, goal));
    }
}

/// The factor of an exact block is a factor of the Schur complement.
pub proof fn law_schur_factored(f: Fac<real>, h: Mat<real>)
    requires
        exact_factor(f, h),
        h.shaped(h.nrows(), h.nrows()),
        transpose_s(h) == h,
    ensures
        lower_rows(f.l),
        pivots(f.l),
        gram_s(f.l) == schur_s(f),
{
    let m = f.len();
    assert forall|i: int| 0 <= i < m implies #[trigger] f.l[i][i] != 0real by {
        assert(f.l[i][i] > 0real);
    }
    let (g, s, t) = (gram_s(f.l), schur_s(f), lower_s(f.l));
    law_gram_symmetric(f.l);
    assert forall|i: int, j: int| 0 <= i < m && 0 <= j < m implies #[trigger] g.at(i, j) == s.at(
        i,
        j,
    ) by {
        let (a, b) = if j <= i {
            (i, j)
        } else {
            (j, i)
        };
        lemma_gram_entry(f.l, a, b);
        assert(entry_ok(f, a, b));
        assert(column_ok(f, h, i) && column_ok(f, h, j));
        assert(transpose_s(g).at(i, j) == g.at(j, i));
        lemma_symmetric(h, f.y[i], f.y[j]);
        lemma_dot_comm(f.y[i], f.rows[j]);
    }
    lemma_mat_eq(g, s);
}

/// An entry of `L * L^T` on or below the diagonal.
pub proof fn lemma_gram_entry(l: Seq<Seq<real>>, i: int, j: int)
    requires
        lower_rows(l),
        0 <= j <= i < l.len(),
    ensures
        gram_s(l).at(i, j) == dot_upto_s(l[i], l[j], (j + 1) as nat),
{
    let t = lower_s(l);
    let n = l.len();
    assert(col_s(transpose_s(t), j) =~= t.rows[j]);
    lemma_dot_comm_upto(t.rows[i], t.rows[j], n);
    lemma_lower_row(l, t.rows[i], j);
    assert(mvec_s(t, t.rows[i])[j] == dot_s(t.rows[j], t.rows[i]));
    lemma_dot_comm_upto(l[j], t.rows[i], (j + 1) as nat);
    lemma_dot_agree(t.rows[i], l[j], l[i], l[j], (j + 1) as nat);
}

/// The Schur solve through an exact factor is exact.
pub proof fn law_solve_schur(f: Fac<real>, h: Mat<real>, rhs: Seq<real>)
    requires
        exact_factor(f, h),
        h.shaped(h.nrows(), h.nrows()),
        transpose_s(h) == h,
        rhs.len() == f.len(),
    ensures
        solve_schur_s(f, rhs).len() == f.len(),
        mvec_s(schur_s(f), solve_schur_s(f, rhs)) == rhs,
{
    law_schur_factored(f, h);
    law_chol_solve(f.l, rhs);
}

/// What the first `k` multipliers take away from `H p`.
spec fn rows_mix(f: Fac<real>, n: nat, nu: Seq<real>, k: nat) -> Seq<real> {
    Seq::new(n, |c: int| dot_upto_s(col_s(active_s(f, n), c), nu, k))
}

proof fn lemma_project(f: Fac<real>, h: Mat<real>, r: Seq<real>, nu: Seq<real>, k: nat)
    requires
        exact_factor(f, h),
        h.shaped(r.len(), r.len()),
        nu.len() == f.len(),
        k <= f.len(),
    ensures
        project_upto_s(f, r, nu, k).len() == r.len(),
        mvec_s(h, project_upto_s(f, r, nu, k)) == vsub_s(
            mvec_s(h, r),
            rows_mix(f, r.len(), nu, k),
        ),
        forall|i: int|
            0 <= i < f.len() ==> #[trigger] dot_s(f.rows[i], project_upto_s(f, r, nu, k)) == dot_s(
                f.rows[i],
                r,
            ) - dot_upto_s(schur_s(f).rows[i], nu, k),
    decreases k,
{
    let n = r.len();
    let p = project_upto_s(f, r, nu, k);
    if k == 0 {
        assert(mvec_s(h, p) =~= vsub_s(mvec_s(h, r), rows_mix(f, n, nu, k)));
    } else {
        let j = k - 1;
        let head = project_upto_s(f, r, nu, j as nat);
        lemma_project(f, h, r, nu, j as nat);
        assert(column_ok(f, h, j));
        let part = vscale_s(-nu[j], f.y[j]);
        lemma_mvec_add(h, part, head);
        lemma_mvec_scale(h, -nu[j], f.y[j]);
        assert forall|c: int| 0 <= c < n implies mvec_s(h, p)[c] == vsub_s(
            mvec_s(h, r),
            rows_mix(f, n, nu, k),
        )[c] by {
            let (a, b) = (f.rows[j][c], nu[j]);
            assert((-b) * a == -(a * b)) by (nonlinear_arith);
        }
        assert(mvec_s(h, p) =~= vsub_s(mvec_s(h, r), rows_mix(f, n, nu, k)));
        assert forall|i: int| 0 <= i < f.len() implies #[trigger] dot_s(f.rows[i], p) == dot_s(
            f.rows[i],
            r,
        ) - dot_upto_s(schur_s(f).rows[i], nu, k) by {
            crate::exact::lemma_dot_add(f.rows[i], part, head);
            crate::exact::lemma_dot_scale(f.rows[i], -nu[j], f.y[j]);
            let (a, b) = (dot_s(f.rows[i], f.y[j]), nu[j]);
            assert((-b) * a == -(a * b)) by (nonlinear_arith);
            assert(dot_s(f.rows[i], head) == dot_s(f.rows[i], r) - dot_upto_s(
                schur_s(f).rows[i],
                nu,
                j as nat,
            ));
        }
    }
}

/// The projection takes `A' nu` off `H p` and `S nu` off `A p`.
pub proof fn law_project(f: Fac<real>, h: Mat<real>, r: Seq<real>, nu: Seq<real>)
    requires
        exact_factor(f, h),
        h.shaped(r.len(), r.len()),
        nu.len() == f.len(),
    ensures
        project_s(f, r, nu).len() == r.len(),
        mvec_s(h, project_s(f, r, nu)) == vsub_s(
            mvec_s(h, r),
            mvec_s(transpose_s(active_s(f, r.len())), nu),
        ),
        dot_rows_s(f, project_s(f, r, nu)) == vsub_s(dot_rows_s(f, r), mvec_s(schur_s(f), nu)),
{
    let n = r.len();
    let a = active_s(f, n);
    lemma_project(f, h, r, nu, f.len());
    assert forall|c: int| 0 <= c < n implies mvec_s(transpose_s(a), nu)[c] == rows_mix(
        f,
        n,
        nu,
        f.len(),
    )[c] by {
        assert(transpose_s(a).rows[c] =~= col_s(a, c));
    }
    assert(mvec_s(transpose_s(a), nu) =~= rows_mix(f, n, nu, f.len()));
    assert(dot_rows_s(f, project_s(f, r, nu)) =~= vsub_s(
        dot_rows_s(f, r),
        mvec_s(schur_s(f), nu),
    ));
}

/// The step and multipliers of one iteration solve the equality-constrained
/// problem on the active rows: the step does not leave them, and
/// `H p + A' nu = -g`.
pub proof fn law_step_exact(
    f: Fac<real>,
    chol: Seq<Seq<real>>,
    h: Mat<real>,
    grad: Seq<real>,
)
    requires
        exact_factor(f, h),
        factors(chol, h),
        grad.len() == chol.len(),
    ensures
        ({
            let r = chol_solve_s(chol, vneg_s(grad));
            let nu = solve_schur_s(f, dot_rows_s(f, r));
            let p = project_s(f, r, nu);
            &&& p.len() == grad.len()
            &&& nu.len() == f.len()
            &&& dot_rows_s(f, p) == vzeros_s::<real>(f.len())
            &&& vadd_s(
                mvec_s(h, p),
                mvec_s(transpose_s(active_s(f, grad.len())), nu),
            ) == vneg_s(grad)
        }),
{
    let g = vneg_s(grad);
    let r = chol_solve_s(chol, g);
    let rhs = dot_rows_s(f, r);
    let nu = solve_schur_s(f, rhs);
    let p = project_s(f, r, nu);
    law_chol_solve(chol, g);
    law_gram_symmetric(chol);
    law_solve_schur(f, h, rhs);
    law_project(f, h, r, nu);
    assert(dot_rows_s(f, p) =~= vzeros_s::<real>(f.len()));
    assert(vadd_s(mvec_s(h, p), mvec_s(transpose_s(active_s(f, grad.len())), nu)) =~= g);
}

/// A row that depends linearly on the active ones is refused.
pub proof fn law_dependent_refused(
    f: Fac<real>,
    coef: Seq<real>,
    chol: Seq<Seq<real>>,
    h: Mat<real>,
)
    requires
        exact_factor(f, h),
        factors(chol, h),
        coef.len() == f.len(),
    ensures
        try_push_s(f, mvec_s(transpose_s(active_s(f, chol.len())), coef), chol) is None,
{
    let n = chol.len();
    let a = active_s(f, n);
    let row = mvec_s(transpose_s(a), coef);
    let y = chol_solve_s(chol, row);
    law_chol_solve(chol, row);
    law_gram_symmetric(chol);
    law_schur_factored(f, h);
    let zero = vzeros_s::<real>(n);
    let mix = project_s(f, zero, coef);
    law_project(f, h, zero, coef);
    crate::exact::lemma_mvec_zero(h);
    lemma_mvec_scale(h, 0real, mix);
    assert(mvec_s(h, vneg_s(mix)) =~= row);
    law_gram_unique(chol, y, vneg_s(mix));
    let s = dot_rows_s(f, y);
    let sc = mvec_s(schur_s(f), coef);
    assert forall|i: int| 0 <= i < f.len() implies s[i] == sc[i] by {
        crate::exact::lemma_dot_scale(f.rows[i], 0real, mix);
        crate::exact::lemma_dot_zero(f.rows[i], n);
        assert(dot_rows_s(f, mix)[i] == dot_rows_s(f, zero)[i] - sc[i]);
    }
    assert(s =~= sc);
    let (t, u) = (lower_s(f.l), transpose_s(lower_s(f.l)));
    let w = forward_s(f.l, s);
    lemma_forward_len(f.l, s, f.len());
    law_forward(f.l, s);
    lemma_mmul_mvec(t, u, coef);
    let lc = mvec_s(u, coef);
    law_lower_unique(f.l, w, lc);
    lemma_transpose_twice(a);
    lemma_adjoint(transpose_s(a), coef, y);
    assert(mvec_s(a, y) =~= s);
    lemma_adjoint(u, coef, w);
    lemma_transpose_twice(t);
    let d = dot_s(row, y);
    assert(d == dot_s(coef, s));
    assert(norm_sq_s(w) == dot_s(coef, mvec_s(t, w)));
    lemma_lit_pos(1, -12);
    let (e, g) = (lit_s::<real>(1, -12), d.abs_s().max_s(1real));
    assert(e * g > 0real) by (nonlinear_arith)
        requires
            e > 0real,
            g >= 1real,
    ;
}

/// When a row is accepted. Let `e` be what remains of the row when a combination
/// of the active ones is taken off it so that the rest is orthogonal to them all
/// under the inverse of the Hessian. The row joins exactly where the squared
/// length of `e` there exceeds `1e-12`, relative to that of the row itself where
/// that is larger than one.
pub proof fn law_push_accepts(
    f: Fac<real>,
    row: Seq<real>,
    coef: Seq<real>,
    chol: Seq<Seq<real>>,
    h: Mat<real>,
    y: Seq<real>,
    ye: Seq<real>,
)
    requires
        exact_factor(f, h),
        factors(chol, h),
        row.len() == chol.len(),
        coef.len() == f.len(),
        y.len() == chol.len(),
        ye.len() == chol.len(),
        mvec_s(h, y) == row,
        mvec_s(h, ye) == vsub_s(row, mvec_s(transpose_s(active_s(f, chol.len())), coef)),
        forall|i: int| 0 <= i < f.len() ==> dot_s(#[trigger] f.rows[i], ye) == 0real,
    ensures
        ({
            let e = vsub_s(row, mvec_s(transpose_s(active_s(f, chol.len())), coef));
            let d = dot_s(row, y);
            let scale = if d > 1real {
                d
            } else if d < -1real {
                -d
            } else {
                1real
            };
            try_push_s(f, row, chol) is Some <==> dot_s(e, ye) > lit_s::<real>(1, -12) * scale
        }),
{
    let n = chol.len();
    let a = active_s(f, n);
    let at = transpose_s(a);
    let u = mvec_s(at, coef);
    let e = vsub_s(row, u);
    law_chol_solve(chol, row);
    law_gram_symmetric(chol);
    law_schur_factored(f, h);
    law_gram_unique(chol, chol_solve_s(chol, row), y);
    let zero = vzeros_s::<real>(n);
    let mix = project_s(f, zero, coef);
    law_project(f, h, zero, coef);
    crate::exact::lemma_mvec_zero(h);
    lemma_mvec_scale(h, 0real, mix);
    let v = vneg_s(mix);
    assert(mvec_s(h, v) =~= u);
    let yv = crate::dense::vadd_s(ye, v);
    crate::exact::lemma_mvec_add(h, ye, v);
    assert(mvec_s(h, yv) =~= row);
    law_gram_unique(chol, y, yv);
    let s = dot_rows_s(f, y);
    let sc = mvec_s(schur_s(f), coef);
    assert forall|i: int| 0 <= i < f.len() implies s[i] == sc[i] by {
        crate::exact::lemma_dot_add(f.rows[i], ye, v);
        crate::exact::lemma_dot_scale(f.rows[i], 0real, mix);
        crate::exact::lemma_dot_zero(f.rows[i], n);
        assert(dot_rows_s(f, mix)[i] == dot_rows_s(f, zero)[i] - sc[i]);
        assert(dot_s(f.rows[i], ye) == 0real);
    }
    assert(s =~= sc);
    let (t, lt) = (lower_s(f.l), transpose_s(lower_s(f.l)));
    let w = forward_s(f.l, s);
    lemma_forward_len(f.l, s, f.len());
    law_forward(f.l, s);
    lemma_mmul_mvec(t, lt, coef);
    law_lower_unique(f.l, w, mvec_s(lt, coef));
    lemma_transpose_twice(a);
    lemma_transpose_twice(t);
    lemma_adjoint(at, coef, y);
    lemma_adjoint(at, coef, ye);
    lemma_adjoint(lt, coef, w);
    assert(mvec_s(a, y) =~= s);
    assert(mvec_s(a, ye) =~= vzeros_s::<real>(f.len()));
    crate::exact::lemma_dot_zero(coef, f.len());
    crate::exact::lemma_dot_add(y, row, u);
    crate::exact::lemma_dot_add(e, ye, v);
    lemma_symmetric(h, ye, v);
    crate::exact::lemma_dot_comm(ye, u);
    let d = dot_s(row, y);
    assert(norm_sq_s(w) == dot_s(coef, s));
    assert(dot_s(e, v) == 0real);
    assert(d == dot_s(e, ye) + dot_s(coef, s));
}

} // verus!
