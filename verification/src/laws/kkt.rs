//! Optimality conditions of quadratic programs in exact arithmetic.

use vstd::prelude::*;

use crate::active_set::{active_row_s, gather_s, kkt_rhs_s, kkt_s, scatter_s};
use crate::dense::{
    col_s, dot_s, dot_upto_s, mvec_s, slice_s, transpose_s, vadd_s, vscale_s, vsub_s, vzeros_s, Mat,
};
use crate::exact::{
    distrib, lemma_adjoint, lemma_dot_add, lemma_dot_agree, lemma_dot_comm, lemma_dot_scale,
    lemma_dot_split, lemma_dot_zero, lemma_dot_zero_upto, lemma_mmul_col, lemma_mmul_mvec,
    lemma_mvec_add, lemma_mvec_scale, lemma_norm_sq_nonneg,
};
use crate::kernels::{as_col_s, is_solution, lu_vec_s, DenseKernels};
use crate::laws::factor::lemma_symmetric;
use crate::laws::triangular::{gram_s, lower_s};
use crate::laws::working_set::{is_working_set, outside};
use crate::qp::{objective_s, row_dot_s, Qp};
use crate::scalar::{lit_s, pow10, Arith};

verus! {

/// The gradient of the Lagrangian: `H x + c + Ae' le + Ai' li`.
pub open spec fn lagrangian_s(
    q: Qp<real>,
    h: Mat<real>,
    x: Seq<real>,
    le: Seq<real>,
    li: Seq<real>,
) -> Seq<real> {
    vadd_s(
        vadd_s(vadd_s(mvec_s(h, x), q.c), mvec_s(transpose_s(q.ae), le)),
        mvec_s(transpose_s(q.ai), li),
    )
}

/// `x` exceeds no inequality by more than `b`.
pub open spec fn within_by(q: Qp<real>, x: Seq<real>, b: real) -> bool {
    forall|i: int| 0 <= i < q.bi.len() ==> #[trigger] row_dot_s(q.ai, i, x) <= q.bi[i] + b
}

/// Every entry is at least `b`.
pub open spec fn at_least(v: Seq<real>, b: real) -> bool {
    forall|i: int| 0 <= i < v.len() ==> #[trigger] v[i] >= b
}

/// `x' H x` is never negative.
pub open spec fn positive_semidefinite(h: Mat<real>) -> bool {
    forall|v: Seq<real>| v.len() == h.nrows() ==> #[trigger] dot_s(v, mvec_s(h, v)) >= 0real
}

/// The literal one half.
pub proof fn lemma_half()
    ensures
        lit_s::<real>(5, -1) == 1real / 2real,
{
    reveal_with_fuel(pow10, 2);
    assert(pow10(1) == 10real);
    assert(lit_s::<real>(5, -1) == 5real / pow10(1));
    assert(5real / 10real == 1real / 2real) by (nonlinear_arith);
}

/// The objective along a direction.
pub proof fn lemma_objective_along(
    h: Mat<real>,
    c: Seq<real>,
    x: Seq<real>,
    p: Seq<real>,
    a: real,
)
    requires
        h.shaped(c.len(), c.len()),
        transpose_s(h) == h,
        x.len() == c.len(),
        p.len() == c.len(),
    ensures
        objective_s(h, c, vadd_s(x, vscale_s(a, p))) == objective_s(h, c, x) + a * dot_s(
            vadd_s(mvec_s(h, x), c),
            p,
        ) + (1real / 2real) * ((a * a) * dot_s(p, mvec_s(h, p))),
{
    lemma_half();
    let ap = vscale_s(a, p);
    let y = vadd_s(x, ap);
    let (hx, hp) = (mvec_s(h, x), mvec_s(h, p));
    lemma_mvec_add(h, x, ap);
    lemma_mvec_scale(h, a, p);
    let hap = vscale_s(a, hp);
    let hy = vadd_s(hx, hap);
    lemma_dot_add(hy, x, ap);
    lemma_dot_add(x, hx, hap);
    lemma_dot_add(ap, hx, hap);
    lemma_dot_scale(x, a, hp);
    lemma_dot_scale(hx, a, p);
    lemma_dot_scale(hap, a, p);
    lemma_dot_scale(p, a, hp);
    lemma_dot_add(c, x, ap);
    lemma_dot_scale(c, a, p);
    lemma_symmetric(h, x, p);
    lemma_dot_add(p, hx, c);
    lemma_dot_comm(hx, p);
    lemma_dot_comm(c, p);
    let (s, t, u) = (dot_s(x, hp), dot_s(p, hp), dot_s(c, p));
    crate::exact::assoc(a, a, t);
    distrib(a, s, u);
    assert(dot_s(y, hy) == dot_s(x, hx) + a * s + a * s + a * (a * t));
}

/// Where the gradient of the Lagrangian vanishes, the multipliers of the
/// inequalities are not negative and belong to tight inequalities, a feasible
/// point minimises the objective over the feasible set.
pub proof fn law_kkt_sufficient(
    q: Qp<real>,
    x: Seq<real>,
    le: Seq<real>,
    li: Seq<real>,
    y: Seq<real>,
)
    requires
        q.wf(),
        transpose_s(q.h) == q.h,
        positive_semidefinite(q.h),
        x.len() == q.n(),
        y.len() == q.n(),
        le.len() == q.be.len(),
        li.len() == q.bi.len(),
        mvec_s(q.ae, x) == q.be,
        lagrangian_s(q, q.h, x, le, li) == vzeros_s::<real>(q.n()),
        at_least(li, 0real),
        forall|i: int|
            0 <= i < q.bi.len() ==> #[trigger] li[i] == 0real || row_dot_s(q.ai, i, x) == q.bi[i],
        mvec_s(q.ae, y) == q.be,
        within_by(q, y, 0real),
    ensures
        objective_s(q.h, q.c, x) <= objective_s(q.h, q.c, y),
{
    let d = vsub_s(y, x);
    assert(vadd_s(x, vscale_s(1real, d)) =~= y) by {
        assert forall|i: int| 0 <= i < y.len() implies vadd_s(x, vscale_s(1real, d))[i]
            == y[i] by {
            let t = d[i];
            assert(1real * t == t) by (nonlinear_arith);
        }
    }
    lemma_objective_along(q.h, q.c, x, d, 1real);
    let g = vadd_s(mvec_s(q.h, x), q.c);
    let (ge, gi) = (mvec_s(transpose_s(q.ae), le), mvec_s(transpose_s(q.ai), li));
    let all = lagrangian_s(q, q.h, x, le, li);
    lemma_dot_add(d, vadd_s(g, ge), gi);
    lemma_dot_add(d, g, ge);
    lemma_dot_zero(d, q.n());
    lemma_adjoint(q.ae, d, le);
    lemma_adjoint(q.ai, d, li);
    lemma_dot_comm(d, ge);
    lemma_dot_comm(d, gi);
    lemma_mvec_add(q.ae, y, x);
    lemma_mvec_add(q.ai, y, x);
    let (ed, id) = (mvec_s(q.ae, d), mvec_s(q.ai, d));
    assert(ed =~= vzeros_s::<real>(q.be.len()));
    lemma_dot_zero(le, q.be.len());
    assert forall|i: int| 0 <= i < q.bi.len() implies #[trigger] id[i] * li[i] <= 0real by {
        let (a, b) = (id[i], li[i]);
        assert(li[i] >= 0real);
        assert(row_dot_s(q.ai, i, y) <= q.bi[i] + 0real);
        if li[i] == 0real {
            assert(a * b == 0real) by (nonlinear_arith)
                requires
                    b == 0real,
            ;
        } else {
            assert(row_dot_s(q.ai, i, x) == q.bi[i]);
            assert(a * b <= 0real) by (nonlinear_arith)
                requires
                    a <= 0real,
                    b >= 0real,
            ;
        }
    }
    lemma_dot_nonpos(id, li, q.bi.len());
    assert(dot_s(d, mvec_s(q.h, d)) >= 0real);
    let (s, t) = (dot_s(g, d), dot_s(d, mvec_s(q.h, d)));
    assert(1real * s == s) by (nonlinear_arith);
    assert((1real * 1real) * t == t) by (nonlinear_arith);
}

proof fn lemma_dot_nonpos(a: Seq<real>, b: Seq<real>, n: nat)
    requires
        forall|i: int| 0 <= i < n ==> #[trigger] a[i] * b[i] <= 0real,
    ensures
        dot_upto_s(a, b, n) <= 0real,
    decreases n,
{
    if n > 0 {
        lemma_dot_nonpos(a, b, (n - 1) as nat);
        assert(a[n - 1] * b[n - 1] <= 0real);
    }
}

/// `L * L^T` is positive semidefinite.
pub proof fn lemma_gram_psd(l: Seq<Seq<real>>, v: Seq<real>)
    requires
        v.len() == l.len(),
    ensures
        dot_s(v, mvec_s(gram_s(l), v)) >= 0real,
{
    let (a, u) = (lower_s(l), transpose_s(lower_s(l)));
    let w = mvec_s(u, v);
    lemma_mmul_mvec(a, u, v);
    crate::exact::lemma_transpose_twice(a);
    lemma_adjoint(u, v, w);
    lemma_norm_sq_nonneg(w, w.len());
}

/// The active rows of a working set.
pub open spec fn rows_of_s(q: Qp<real>, ws: Seq<usize>) -> Mat<real> {
    Mat {
        cols: q.n(),
        rows: Seq::new(q.be.len() + ws.len(), |k: int| active_row_s(q, ws, k)),
    }
}

/// The products of a vector that vanishes outside the working set.
proof fn lemma_sparse_dot(a: Seq<real>, v: Seq<real>, ws: Seq<usize>, n: nat)
    requires
        a.len() == v.len(),
        v.len() <= usize::MAX,
        n <= ws.len(),
        ws.no_duplicates(),
        forall|k: int| 0 <= k < ws.len() ==> #[trigger] ws[k] < v.len(),
        forall|i: int|
            0 <= i < v.len() && #[trigger] outside(ws.take(n as int), i) ==> v[i] == 0real,
    ensures
        dot_s(a, v) == dot_upto_s(
            Seq::new(ws.len(), |k: int| a[ws[k] as int]),
            Seq::new(ws.len(), |k: int| v[ws[k] as int]),
            n,
        ),
    decreases n,
{
    let (b, w) = (
        Seq::new(ws.len(), |k: int| a[ws[k] as int]),
        Seq::new(ws.len(), |k: int| v[ws[k] as int]),
    );
    if n == 0 {
        assert forall|i: int| 0 <= i < a.len() implies #[trigger] a[i] * v[i] == 0real by {
            let t = a[i];
            assert(outside(ws.take(0), i));
            assert(t * 0real == 0real) by (nonlinear_arith);
        }
        lemma_dot_zero_upto(a, v, a.len());
    } else {
        let j = ws[n - 1] as int;
        let u = v.update(j, 0real);
        let (head, all) = (ws.take(n - 1), ws.take(n as int));
        assert forall|i: int| 0 <= i < u.len() && #[trigger] outside(head, i) implies u[i]
            == 0real by {
            if i != j {
                if all.contains(i as usize) {
                    let k = choose|k: int| 0 <= k < all.len() && all[k] == i as usize;
                    if k < n - 1 {
                        assert(head[k] == i as usize);
                    }
                }
                assert(outside(all, i));
            }
        }
        lemma_sparse_dot(a, u, ws, (n - 1) as nat);
        lemma_dot_swap(a, v, j, 0real, a.len());
        let w2 = Seq::new(ws.len(), |k: int| u[ws[k] as int]);
        assert forall|k: int| 0 <= k < n - 1 implies w2[k] == w[k] by {
            assert(ws[k] != ws[n - 1]);
        }
        lemma_dot_agree(b, w2, b, w, (n - 1) as nat);
        let t = a[j];
        assert(t * 0real == 0real) by (nonlinear_arith);
    }
}

/// The product after one entry of the second vector was replaced.
proof fn lemma_dot_swap(a: Seq<real>, b: Seq<real>, q: int, y: real, n: nat)
    requires
        0 <= q < b.len(),
        n <= a.len(),
        n <= b.len(),
    ensures
        q >= n ==> dot_upto_s(a, b.update(q, y), n) == dot_upto_s(a, b, n),
        q < n ==> dot_upto_s(a, b.update(q, y), n) == dot_upto_s(a, b, n) - a[q] * b[q] + a[q] * y,
    decreases n,
{
    if n > 0 {
        lemma_dot_swap(a, b, q, y, (n - 1) as nat);
    }
}

/// A scattered entry is found at its place.
pub proof fn lemma_scatter_at<T>(
    base: Seq<T>,
    ws: Seq<usize>,
    vals: Seq<T>,
    off: nat,
    n: nat,
    k: int,
)
    requires
        0 <= k < n <= ws.len(),
        ws.no_duplicates(),
        forall|j: int| 0 <= j < ws.len() ==> #[trigger] ws[j] < base.len(),
    ensures
        scatter_s(base, ws, vals, off, n).len() == base.len(),
        scatter_s(base, ws, vals, off, n)[ws[k] as int] == vals[off + k],
    decreases n,
{
    crate::active_set::lemma_scatter_len(base, ws, vals, off, (n - 1) as nat);
    if k < n - 1 {
        lemma_scatter_at(base, ws, vals, off, (n - 1) as nat, k);
        assert(ws[k] != ws[n - 1]);
    }
}

/// The multipliers of the active rows, taken apart by constraint block.
pub proof fn lemma_multipliers(
    q: Qp<real>,
    ws: Seq<usize>,
    nu: Seq<real>,
    le: Seq<real>,
    li: Seq<real>,
)
    requires
        q.wf(),
        q.bi.len() <= usize::MAX,
        is_working_set(q, ws),
        nu.len() == q.be.len() + ws.len(),
        le == slice_s(nu, 0, q.be.len()),
        li.len() == q.bi.len(),
        forall|i: int| 0 <= i < q.bi.len() && #[trigger] outside(ws, i) ==> li[i] == 0real,
        forall|k: int| 0 <= k < ws.len() ==> li[#[trigger] ws[k] as int] == nu[q.be.len() + k],
    ensures
        mvec_s(transpose_s(rows_of_s(q, ws)), nu) == vadd_s(
            mvec_s(transpose_s(q.ae), le),
            mvec_s(transpose_s(q.ai), li),
        ),
{
    let a = rows_of_s(q, ws);
    let (m, n) = (q.be.len(), q.n());
    let sum = vadd_s(mvec_s(transpose_s(q.ae), le), mvec_s(transpose_s(q.ai), li));
    assert(ws.take(ws.len() as int) =~= ws);
    assert forall|c: int| 0 <= c < n implies mvec_s(transpose_s(a), nu)[c] == sum[c] by {
        let row = transpose_s(a).rows[c];
        lemma_dot_split(row, nu, m, m + ws.len());
        lemma_dot_agree(row, nu, transpose_s(q.ae).rows[c], le, m);
        let ic = transpose_s(q.ai).rows[c];
        lemma_sparse_dot(ic, li, ws, ws.len());
        let (g, v) = (
            Seq::new(ws.len(), |k: int| ic[ws[k] as int]),
            Seq::new(ws.len(), |k: int| li[ws[k] as int]),
        );
        assert(slice_s(row, m, ws.len()) =~= g);
        assert(slice_s(nu, m, ws.len()) =~= v);
    }
    assert(mvec_s(transpose_s(a), nu) =~= sum);
}

/// A vector that the LU solve returns is a solution.
pub proof fn lemma_lu_vec(a: Mat<real>, b: Seq<real>, z: Seq<real>)
    requires
        a.shaped(b.len(), b.len()),
        lu_vec_s(a, b) == Some(z),
    ensures
        z.len() == b.len(),
        mvec_s(a, z) == b,
{
    let x = real::lu_solve_s(a, as_col_s(b))->0;
    assert(is_solution(x, a, as_col_s(b)));
    lemma_mmul_col(a, x, 0);
    assert(col_s(as_col_s(b), 0) =~= b);
}

/// A solution of the KKT system of a working set is stationary and meets the
/// active rows with equality.
pub proof fn law_kkt_system(q: Qp<real>, ws: Seq<usize>, z: Seq<real>)
    requires
        q.wf(),
        is_working_set(q, ws),
        lu_vec_s(kkt_s(q, ws), kkt_rhs_s(q, ws)) == Some(z),
    ensures
        ({
            let (n, m) = (q.n(), q.be.len() + ws.len());
            let (x, nu) = (slice_s(z, 0, n), slice_s(z, n, m));
            &&& z.len() == n + m
            &&& vadd_s(
                vadd_s(mvec_s(q.h, x), q.c),
                mvec_s(transpose_s(rows_of_s(q, ws)), nu),
            ) == vzeros_s::<real>(n)
            &&& mvec_s(q.ae, x) == q.be
            &&& forall|k: int|
                0 <= k < ws.len() ==> row_dot_s(q.ai, #[trigger] ws[k] as int, x)
                    == q.bi[ws[k] as int]
        }),
{
    let (n, m) = (q.n(), q.be.len() + ws.len());
    let (a, rhs) = (kkt_s(q, ws), kkt_rhs_s(q, ws));
    lemma_lu_vec(a, rhs, z);
    let (x, nu) = (slice_s(z, 0, n), slice_s(z, n, m));
    let at = transpose_s(rows_of_s(q, ws));
    let sum = vadd_s(vadd_s(mvec_s(q.h, x), q.c), mvec_s(at, nu));
    assert forall|i: int| 0 <= i < n implies sum[i] == 0real by {
        assert(mvec_s(a, z)[i] == rhs[i]);
        lemma_dot_split(a.rows[i], z, n, n + m);
        lemma_dot_agree(a.rows[i], z, q.h.rows[i], x, n);
        assert(slice_s(a.rows[i], n, m) =~= at.rows[i]);
    }
    assert(sum =~= vzeros_s::<real>(n));
    assert forall|k: int| 0 <= k < m implies dot_s(#[trigger] active_row_s(q, ws, k), x)
        == rhs[n + k] by {
        assert(mvec_s(a, z)[n + k] == rhs[n + k]);
        let row = a.rows[n + k];
        lemma_dot_split(row, z, n, n + m);
        let (rt, zt) = (slice_s(row, n, m), slice_s(z, n, m));
        assert forall|j: int| 0 <= j < m implies #[trigger] rt[j] * zt[j] == 0real by {
            let t = zt[j];
            assert(rt[j] == 0real);
            assert(0real * t == 0real) by (nonlinear_arith);
        }
        lemma_dot_zero_upto(rt, zt, m);
        if k >= q.be.len() {
            assert(ws[k - q.be.len()] < q.bi.len());
        }
        lemma_dot_agree(row, z, active_row_s(q, ws, k), x, n);
    }
    assert forall|k: int| 0 <= k < q.be.len() implies mvec_s(q.ae, x)[k] == q.be[k] by {
        assert(dot_s(active_row_s(q, ws, k), x) == rhs[n + k]);
    }
    assert(mvec_s(q.ae, x) =~= q.be);
    assert forall|k: int| 0 <= k < ws.len() implies row_dot_s(q.ai, #[trigger] ws[k] as int, x)
        == q.bi[ws[k] as int] by {
        let j = q.be.len() + k;
        assert(dot_s(active_row_s(q, ws, j), x) == rhs[n + j]);
        assert(rhs[n + j] == gather_s(q.bi, ws)[k]);
    }
}

} // verus!
