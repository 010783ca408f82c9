//! Linear algebra in exact arithmetic: how the vector and matrix operations of
//! [`crate::dense`] behave over `real`.

use vstd::prelude::*;

use crate::dense::{
    col_s, dot_s, dot_upto_s, identity_s, lemma_mat_eq, madd_s, mmul_s, mneg_s, mscale_s, msub_s,
    mvec_s, mzeros_s, place_s, shift_diag_s, slice_s, stack_rows_s, transpose_s, vadd_s, vneg_s,
    vscale_s, vsub_s, vzeros_s, Mat,
};

verus! {

/// How products spread over sums.
pub proof fn distrib(a: real, b: real, c: real)
    ensures
        a * (b + c) == a * b + a * c,
        (a + b) * c == a * c + b * c,
        a * (b - c) == a * b - a * c,
        (a - b) * c == a * c - b * c,
        a * b == b * a,
        (-a) * b == -(a * b),
        a * (-b) == -(a * b),
{
    assert(a * (b + c) == a * b + a * c) by (nonlinear_arith);
    assert((a + b) * c == a * c + b * c) by (nonlinear_arith);
    assert(a * (b - c) == a * b - a * c) by (nonlinear_arith);
    assert((a - b) * c == a * c - b * c) by (nonlinear_arith);
    assert(a * b == b * a) by (nonlinear_arith);
    assert((-a) * b == -(a * b)) by (nonlinear_arith);
    assert(a * (-b) == -(a * b)) by (nonlinear_arith);
}

/// Products regroup.
pub proof fn assoc(a: real, b: real, c: real)
    ensures
        (a * b) * c == a * (b * c),
{
    assert((a * b) * c == a * (b * c)) by (nonlinear_arith);
}

/// Only the first `n` entries matter.
pub proof fn lemma_dot_agree(a: Seq<real>, b: Seq<real>, c: Seq<real>, d: Seq<real>, n: nat)
    requires
        forall|i: int| 0 <= i < n ==> a[i] == c[i] && b[i] == d[i],
    ensures
        dot_upto_s(a, b, n) == dot_upto_s(c, d, n),
    decreases n,
{
    if n > 0 {
        lemma_dot_agree(a, b, c, d, (n - 1) as nat);
        assert(a[n - 1] == c[n - 1] && b[n - 1] == d[n - 1]);
    }
}

pub proof fn lemma_dot_comm_upto(a: Seq<real>, b: Seq<real>, n: nat)
    ensures
        dot_upto_s(a, b, n) == dot_upto_s(b, a, n),
    decreases n,
{
    if n > 0 {
        lemma_dot_comm_upto(a, b, (n - 1) as nat);
        distrib(a[n - 1], b[n - 1], 0real);
    }
}

/// The product of two vectors is symmetric.
pub proof fn lemma_dot_comm(a: Seq<real>, b: Seq<real>)
    requires
        a.len() == b.len(),
    ensures
        dot_s(a, b) == dot_s(b, a),
{
    lemma_dot_comm_upto(a, b, a.len());
}

pub proof fn lemma_dot_add_upto(a: Seq<real>, b: Seq<real>, c: Seq<real>, n: nat)
    requires
        n <= b.len(),
        b.len() == c.len(),
    ensures
        dot_upto_s(a, vadd_s(b, c), n) == dot_upto_s(a, b, n) + dot_upto_s(a, c, n),
        dot_upto_s(a, vsub_s(b, c), n) == dot_upto_s(a, b, n) - dot_upto_s(a, c, n),
        dot_upto_s(vadd_s(b, c), a, n) == dot_upto_s(b, a, n) + dot_upto_s(c, a, n),
        dot_upto_s(vsub_s(b, c), a, n) == dot_upto_s(b, a, n) - dot_upto_s(c, a, n),
    decreases n,
{
    if n > 0 {
        lemma_dot_add_upto(a, b, c, (n - 1) as nat);
        let i = n - 1;
        distrib(a[i], b[i], c[i]);
        distrib(b[i], c[i], a[i]);
    }
}

/// The product is additive in its second argument.
pub proof fn lemma_dot_add(a: Seq<real>, b: Seq<real>, c: Seq<real>)
    requires
        a.len() == b.len(),
        b.len() == c.len(),
    ensures
        dot_s(a, vadd_s(b, c)) == dot_s(a, b) + dot_s(a, c),
        dot_s(a, vsub_s(b, c)) == dot_s(a, b) - dot_s(a, c),
        dot_s(vadd_s(b, c), a) == dot_s(b, a) + dot_s(c, a),
        dot_s(vsub_s(b, c), a) == dot_s(b, a) - dot_s(c, a),
{
    lemma_dot_add_upto(a, b, c, a.len());
}

pub proof fn lemma_dot_scale_upto(a: Seq<real>, k: real, b: Seq<real>, n: nat)
    requires
        n <= b.len(),
    ensures
        dot_upto_s(a, vscale_s(k, b), n) == k * dot_upto_s(a, b, n),
        dot_upto_s(vscale_s(k, b), a, n) == k * dot_upto_s(b, a, n),
        dot_upto_s(a, vneg_s(b), n) == -dot_upto_s(a, b, n),
        dot_upto_s(vneg_s(b), a, n) == -dot_upto_s(b, a, n),
    decreases n,
{
    if n > 0 {
        lemma_dot_scale_upto(a, k, b, (n - 1) as nat);
        let i = n - 1;
        let (x, y) = (a[i], b[i]);
        assert(x * (k * y) == k * (x * y)) by (nonlinear_arith);
        assert((k * y) * x == k * (y * x)) by (nonlinear_arith);
        distrib(k, dot_upto_s(a, b, i as nat), x * y);
        distrib(k, dot_upto_s(b, a, i as nat), y * x);
        distrib(x, y, 0real);
        distrib(y, x, 0real);
    } else {
        assert(k * 0real == 0real) by (nonlinear_arith);
    }
}

/// The product is homogeneous in each argument.
pub proof fn lemma_dot_scale(a: Seq<real>, k: real, b: Seq<real>)
    requires
        a.len() == b.len(),
    ensures
        dot_s(a, vscale_s(k, b)) == k * dot_s(a, b),
        dot_s(vscale_s(k, b), a) == k * dot_s(b, a),
        dot_s(a, vneg_s(b)) == -dot_s(a, b),
        dot_s(vneg_s(b), a) == -dot_s(b, a),
{
    lemma_dot_scale_upto(a, k, b, a.len());
}

pub proof fn lemma_dot_zero_upto(a: Seq<real>, b: Seq<real>, n: nat)
    requires
        forall|i: int| 0 <= i < n ==> #[trigger] a[i] * b[i] == 0real,
    ensures
        dot_upto_s(a, b, n) == 0real,
    decreases n,
{
    if n > 0 {
        lemma_dot_zero_upto(a, b, (n - 1) as nat);
        assert(a[n - 1] * b[n - 1] == 0real);
    }
}

/// The product with the zero vector is zero.
pub proof fn lemma_dot_zero(a: Seq<real>, n: nat)
    requires
        a.len() == n,
    ensures
        dot_s(a, vzeros_s(n)) == 0real,
        dot_s(vzeros_s(n), a) == 0real,
{
    let z = vzeros_s::<real>(n);
    assert forall|i: int| 0 <= i < n implies #[trigger] a[i] * z[i] == 0real by {
        distrib(a[i], 0real, 0real);
        let x = a[i];
        assert(x * 0real == 0real) by (nonlinear_arith);
    }
    lemma_dot_zero_upto(a, z, n);
    lemma_dot_comm(a, z);
}

/// The product with a vector that has one entry is that entry's product.
pub proof fn lemma_dot_single(a: Seq<real>, b: Seq<real>, j: int, n: nat)
    requires
        0 <= j < n,
        forall|i: int| 0 <= i < n && i != j ==> #[trigger] a[i] == 0real,
    ensures
        dot_upto_s(a, b, n) == a[j] * b[j],
    decreases n,
{
    if j == n - 1 {
        assert forall|i: int| 0 <= i < n - 1 implies #[trigger] a[i] * b[i] == 0real by {
            let y = b[i];
            assert(a[i] == 0real);
            assert(0real * y == 0real) by (nonlinear_arith);
        }
        lemma_dot_zero_upto(a, b, (n - 1) as nat);
    } else {
        lemma_dot_single(a, b, j, (n - 1) as nat);
        let y = b[n - 1];
        assert(a[n - 1] == 0real);
        assert(0real * y == 0real) by (nonlinear_arith);
    }
}

/// A sum splits into a head and a tail.
pub proof fn lemma_dot_split(a: Seq<real>, b: Seq<real>, k: nat, n: nat)
    requires
        k <= n,
        n <= a.len(),
        n <= b.len(),
    ensures
        dot_upto_s(a, b, n) == dot_upto_s(a, b, k) + dot_upto_s(
            slice_s(a, k, (n - k) as nat),
            slice_s(b, k, (n - k) as nat),
            (n - k) as nat,
        ),
    decreases n - k,
{
    if k < n {
        lemma_dot_split(a, b, k, (n - 1) as nat);
        let m = (n - 1 - k) as nat;
        lemma_dot_agree(
            slice_s(a, k, m),
            slice_s(b, k, m),
            slice_s(a, k, m + 1),
            slice_s(b, k, m + 1),
            m,
        );
    }
}

/// The product of two concatenations.
pub proof fn lemma_dot_concat(a: Seq<real>, b: Seq<real>, c: Seq<real>, d: Seq<real>)
    requires
        a.len() == c.len(),
        b.len() == d.len(),
    ensures
        dot_s(a + b, c + d) == dot_s(a, c) + dot_s(b, d),
{
    let (x, y) = (a + b, c + d);
    let n = x.len();
    lemma_dot_split(x, y, a.len(), n);
    lemma_dot_agree(x, y, a, c, a.len());
    assert(slice_s(x, a.len(), b.len()) =~= b);
    assert(slice_s(y, a.len(), b.len()) =~= d);
}

/// Squares sum to no less than zero.
pub proof fn lemma_norm_sq_nonneg(a: Seq<real>, n: nat)
    ensures
        dot_upto_s(a, a, n) >= 0real,
    decreases n,
{
    if n > 0 {
        lemma_norm_sq_nonneg(a, (n - 1) as nat);
        let x = a[n - 1];
        assert(x * x >= 0real) by (nonlinear_arith);
    }
}

/// Squares that sum to zero are zero.
pub proof fn lemma_norm_sq_zero(a: Seq<real>, n: nat, i: int)
    requires
        dot_upto_s(a, a, n) == 0real,
        0 <= i < n,
    ensures
        a[i] == 0real,
    decreases n,
{
    lemma_norm_sq_nonneg(a, (n - 1) as nat);
    let x = a[n - 1];
    assert(x * x >= 0real) by (nonlinear_arith);
    if i == n - 1 {
        assert(x == 0real) by (nonlinear_arith)
            requires
                x * x == 0real,
        ;
    } else {
        lemma_norm_sq_zero(a, (n - 1) as nat, i);
    }
}

/// A matrix acts additively.
pub proof fn lemma_mvec_add(a: Mat<real>, x: Seq<real>, y: Seq<real>)
    requires
        a.wf(),
        x.len() == a.ncols(),
        y.len() == a.ncols(),
    ensures
        mvec_s(a, vadd_s(x, y)) == vadd_s(mvec_s(a, x), mvec_s(a, y)),
        mvec_s(a, vsub_s(x, y)) == vsub_s(mvec_s(a, x), mvec_s(a, y)),
{
    assert forall|i: int| 0 <= i < a.nrows() implies mvec_s(a, vadd_s(x, y))[i] == vadd_s(
        mvec_s(a, x),
        mvec_s(a, y),
    )[i] && mvec_s(a, vsub_s(x, y))[i] == vsub_s(mvec_s(a, x), mvec_s(a, y))[i] by {
        lemma_dot_add(a.rows[i], x, y);
    }
    assert(mvec_s(a, vadd_s(x, y)) =~= vadd_s(mvec_s(a, x), mvec_s(a, y)));
    assert(mvec_s(a, vsub_s(x, y)) =~= vsub_s(mvec_s(a, x), mvec_s(a, y)));
}

/// A matrix acts homogeneously.
pub proof fn lemma_mvec_scale(a: Mat<real>, k: real, x: Seq<real>)
    requires
        a.wf(),
        x.len() == a.ncols(),
    ensures
        mvec_s(a, vscale_s(k, x)) == vscale_s(k, mvec_s(a, x)),
        mvec_s(a, vneg_s(x)) == vneg_s(mvec_s(a, x)),
{
    assert forall|i: int| 0 <= i < a.nrows() implies mvec_s(a, vscale_s(k, x))[i] == vscale_s(
        k,
        mvec_s(a, x),
    )[i] by {
        lemma_dot_scale(a.rows[i], k, x);
    }
    assert forall|i: int| 0 <= i < a.nrows() implies mvec_s(a, vneg_s(x))[i] == vneg_s(
        mvec_s(a, x),
    )[i] by {
        lemma_dot_scale(a.rows[i], k, x);
    }
    assert(mvec_s(a, vscale_s(k, x)) =~= vscale_s(k, mvec_s(a, x)));
    assert(mvec_s(a, vneg_s(x)) =~= vneg_s(mvec_s(a, x)));
}

/// A matrix maps zero to zero.
pub proof fn lemma_mvec_zero(a: Mat<real>)
    requires
        a.wf(),
    ensures
        mvec_s(a, vzeros_s(a.ncols())) == vzeros_s::<real>(a.nrows()),
{
    assert forall|i: int| 0 <= i < a.nrows() implies mvec_s(a, vzeros_s(a.ncols()))[i]
        == 0real by {
        lemma_dot_zero(a.rows[i], a.ncols());
    }
    assert(mvec_s(a, vzeros_s(a.ncols())) =~= vzeros_s::<real>(a.nrows()));
}

/// The zero matrix maps everything to zero.
pub proof fn lemma_mzeros_mvec(r: nat, c: nat, x: Seq<real>)
    requires
        x.len() == c,
    ensures
        mvec_s(mzeros_s(r, c), x) == vzeros_s::<real>(r),
{
    let z = mzeros_s::<real>(r, c);
    assert forall|i: int| 0 <= i < r implies mvec_s(z, x)[i] == 0real by {
        assert(z.rows[i] =~= vzeros_s(c));
        lemma_dot_zero(x, c);
    }
    assert(mvec_s(z, x) =~= vzeros_s::<real>(r));
}

/// The identity acts as such.
pub proof fn lemma_identity_mvec(x: Seq<real>)
    ensures
        mvec_s(identity_s(x.len()), x) == x,
{
    let n = x.len();
    let id = identity_s::<real>(n);
    assert forall|i: int| 0 <= i < n implies mvec_s(id, x)[i] == x[i] by {
        lemma_dot_single(id.rows[i], x, i, n);
    }
    assert(mvec_s(id, x) =~= x);
}

/// Sums and multiples of matrices act entry by entry.
pub proof fn lemma_madd_mvec(a: Mat<real>, b: Mat<real>, x: Seq<real>)
    requires
        a.wf(),
        b.shaped(a.nrows(), a.ncols()),
        x.len() == a.ncols(),
    ensures
        mvec_s(madd_s(a, b), x) == vadd_s(mvec_s(a, x), mvec_s(b, x)),
        mvec_s(msub_s(a, b), x) == vsub_s(mvec_s(a, x), mvec_s(b, x)),
{
    let (s, d) = (madd_s(a, b), msub_s(a, b));
    assert forall|i: int| 0 <= i < a.nrows() implies mvec_s(s, x)[i] == vadd_s(
        mvec_s(a, x),
        mvec_s(b, x),
    )[i] && mvec_s(d, x)[i] == vsub_s(mvec_s(a, x), mvec_s(b, x))[i] by {
        assert(s.rows[i] =~= vadd_s(a.rows[i], b.rows[i]));
        assert(d.rows[i] =~= vsub_s(a.rows[i], b.rows[i]));
        lemma_dot_add(x, a.rows[i], b.rows[i]);
    }
    assert(mvec_s(s, x) =~= vadd_s(mvec_s(a, x), mvec_s(b, x)));
    assert(mvec_s(d, x) =~= vsub_s(mvec_s(a, x), mvec_s(b, x)));
}

pub proof fn lemma_mscale_mvec(k: real, a: Mat<real>, x: Seq<real>)
    requires
        a.wf(),
        x.len() == a.ncols(),
    ensures
        mvec_s(mscale_s(k, a), x) == vscale_s(k, mvec_s(a, x)),
        mvec_s(mneg_s(a), x) == vneg_s(mvec_s(a, x)),
{
    let (s, d) = (mscale_s(k, a), mneg_s(a));
    assert forall|i: int| 0 <= i < a.nrows() implies mvec_s(s, x)[i] == vscale_s(
        k,
        mvec_s(a, x),
    )[i] && mvec_s(d, x)[i] == vneg_s(mvec_s(a, x))[i] by {
        assert(s.rows[i] =~= vscale_s(k, a.rows[i]));
        assert(d.rows[i] =~= vneg_s(a.rows[i]));
        lemma_dot_scale(x, k, a.rows[i]);
    }
    assert(mvec_s(s, x) =~= vscale_s(k, mvec_s(a, x)));
    assert(mvec_s(d, x) =~= vneg_s(mvec_s(a, x)));
}

/// `(a + k I) x == a x + k x`.
pub proof fn lemma_shift_mvec(a: Mat<real>, k: real, x: Seq<real>)
    requires
        a.shaped(x.len(), x.len()),
    ensures
        mvec_s(shift_diag_s(a, k), x) == vadd_s(mvec_s(a, x), vscale_s(k, x)),
{
    let id = identity_s::<real>(x.len());
    lemma_madd_mvec(a, mscale_s(k, id), x);
    lemma_mscale_mvec(k, id, x);
    lemma_identity_mvec(x);
}

/// The row `r * b`, summed over the first `k` rows of `b`.
pub open spec fn row_mix(r: Seq<real>, b: Mat<real>, k: nat) -> Seq<real> {
    Seq::new(b.ncols(), |j: int| dot_upto_s(r, col_s(b, j), k))
}

/// `(r b) . x == r . (b x)`.
pub proof fn lemma_row_mix(r: Seq<real>, b: Mat<real>, x: Seq<real>, k: nat)
    requires
        b.wf(),
        k <= b.nrows(),
        k <= r.len(),
        x.len() == b.ncols(),
    ensures
        dot_s(row_mix(r, b, k), x) == dot_upto_s(r, mvec_s(b, x), k),
    decreases k,
{
    let f = row_mix(r, b, k);
    if k == 0 {
        assert(f =~= vzeros_s(b.ncols()));
        lemma_dot_zero(x, b.ncols());
    } else {
        let i = k - 1;
        let g = row_mix(r, b, i as nat);
        lemma_row_mix(r, b, x, i as nat);
        assert(f =~= vadd_s(g, vscale_s(r[i], b.rows[i])));
        lemma_dot_add(x, g, vscale_s(r[i], b.rows[i]));
        lemma_dot_scale(x, r[i], b.rows[i]);
    }
}

/// Applying a product of matrices is applying one after the other.
pub proof fn lemma_mmul_mvec(a: Mat<real>, b: Mat<real>, x: Seq<real>)
    requires
        a.wf(),
        b.wf(),
        a.ncols() == b.nrows(),
        x.len() == b.ncols(),
    ensures
        mvec_s(mmul_s(a, b), x) == mvec_s(a, mvec_s(b, x)),
{
    let p = mmul_s(a, b);
    assert forall|i: int| 0 <= i < a.nrows() implies mvec_s(p, x)[i] == mvec_s(
        a,
        mvec_s(b, x),
    )[i] by {
        assert(p.rows[i] =~= row_mix(a.rows[i], b, a.ncols()));
        lemma_row_mix(a.rows[i], b, x, a.ncols());
    }
    assert(mvec_s(p, x) =~= mvec_s(a, mvec_s(b, x)));
}

/// The transpose is the adjoint: `(a x) . y == x . (a' y)`.
pub proof fn lemma_adjoint(a: Mat<real>, x: Seq<real>, y: Seq<real>)
    requires
        a.wf(),
        x.len() == a.ncols(),
        y.len() == a.nrows(),
    ensures
        dot_s(mvec_s(a, x), y) == dot_s(x, mvec_s(transpose_s(a), y)),
{
    let t = transpose_s(a);
    let f = row_mix(y, a, a.nrows());
    assert forall|j: int| 0 <= j < a.ncols() implies mvec_s(t, y)[j] == f[j] by {
        assert(t.rows[j] =~= col_s(a, j));
        lemma_dot_comm(col_s(a, j), y);
    }
    assert(mvec_s(t, y) =~= f);
    lemma_row_mix(y, a, x, a.nrows());
    lemma_dot_comm(f, x);
    lemma_dot_comm(y, mvec_s(a, x));
}

/// Column `j` of a product is the first factor applied to column `j` of the
/// second.
pub proof fn lemma_mmul_col(a: Mat<real>, b: Mat<real>, j: int)
    requires
        0 <= j < b.ncols(),
    ensures
        col_s(mmul_s(a, b), j) == mvec_s(a, col_s(b, j)),
{
    assert(col_s(mmul_s(a, b), j) =~= mvec_s(a, col_s(b, j)));
}

/// The product of matrices is associative.
pub proof fn lemma_mmul_assoc(a: Mat<real>, b: Mat<real>, c: Mat<real>)
    requires
        a.wf(),
        b.wf(),
        c.wf(),
        a.ncols() == b.nrows(),
        b.ncols() == c.nrows(),
    ensures
        mmul_s(mmul_s(a, b), c) == mmul_s(a, mmul_s(b, c)),
{
    let (l, r) = (mmul_s(mmul_s(a, b), c), mmul_s(a, mmul_s(b, c)));
    assert forall|i: int, j: int| 0 <= i < l.nrows() && 0 <= j < l.ncols() implies #[trigger] l.at(
        i,
        j,
    ) == r.at(i, j) by {
        lemma_mmul_col(mmul_s(a, b), c, j);
        lemma_mmul_mvec(a, b, col_s(c, j));
        lemma_mmul_col(b, c, j);
        lemma_mmul_col(a, mmul_s(b, c), j);
        assert(l.at(i, j) == col_s(l, j)[i]);
        assert(r.at(i, j) == col_s(r, j)[i]);
    }
    lemma_mat_eq(l, r);
}

/// The rows of a stack act one after the other.
pub proof fn lemma_stack_mvec(a: Mat<real>, b: Mat<real>, x: Seq<real>)
    ensures
        mvec_s(stack_rows_s(a, b), x) == mvec_s(a, x) + mvec_s(b, x),
{
    assert(mvec_s(stack_rows_s(a, b), x) =~= mvec_s(a, x) + mvec_s(b, x));
}

/// Placed coefficients act on the block alone.
pub proof fn lemma_place_mvec(a: Mat<real>, off: nat, n: nat, x: Seq<real>)
    requires
        a.wf(),
        off + a.ncols() <= n,
        x.len() == n,
    ensures
        mvec_s(place_s(a, off, n), x) == mvec_s(a, slice_s(x, off, a.ncols())),
{
    let p = place_s(a, off, n);
    let k = a.ncols();
    assert forall|i: int| 0 <= i < a.nrows() implies mvec_s(p, x)[i] == mvec_s(
        a,
        slice_s(x, off, k),
    )[i] by {
        let row = p.rows[i];
        let end = off + k;
        lemma_dot_split(row, x, end, n);
        lemma_dot_split(row, x, off, end);
        let tail = slice_s(row, end, (n - end) as nat);
        let xt = slice_s(x, end, (n - end) as nat);
        assert forall|j: int| 0 <= j < n - end implies #[trigger] tail[j] * xt[j] == 0real by {
            let y = xt[j];
            assert(tail[j] == 0real);
            assert(0real * y == 0real) by (nonlinear_arith);
        }
        lemma_dot_zero_upto(tail, xt, (n - end) as nat);
        assert forall|j: int| 0 <= j < off implies #[trigger] row[j] * x[j] == 0real by {
            let y = x[j];
            assert(row[j] == 0real);
            assert(0real * y == 0real) by (nonlinear_arith);
        }
        lemma_dot_zero_upto(row, x, off);
        assert(slice_s(row, off, k) =~= a.rows[i]);
    }
    assert(mvec_s(p, x) =~= mvec_s(a, slice_s(x, off, k)));
}

/// Two vectors with a vanishing difference are equal.
pub proof fn lemma_vsub_zero(a: Seq<real>, b: Seq<real>)
    requires
        a.len() == b.len(),
    ensures
        vsub_s(a, b) == vzeros_s::<real>(a.len()) <==> a == b,
{
    if vsub_s(a, b) == vzeros_s::<real>(a.len()) {
        assert forall|i: int| 0 <= i < a.len() implies a[i] == b[i] by {
            assert(vsub_s(a, b)[i] == vzeros_s::<real>(a.len())[i]);
        }
        assert(a =~= b);
    } else {
        if a == b {
            assert(vsub_s(a, b) =~= vzeros_s::<real>(a.len()));
        }
    }
}

/// A transpose of a transpose is the matrix itself.
pub proof fn lemma_transpose_twice(a: Mat<real>)
    requires
        a.wf(),
    ensures
        transpose_s(transpose_s(a)) == a,
{
    lemma_mat_eq(transpose_s(transpose_s(a)), a);
}

} // verus!
