//! Laws of triangular substitution.

use vstd::prelude::*;

use crate::dense::{col_s, dot_upto_s, lemma_mat_eq, mmul_s, mvec_s, slice_s, transpose_s, Mat};
use crate::exact::{
    lemma_dot_agree, lemma_dot_comm_upto, lemma_dot_split, lemma_dot_zero_upto, lemma_mmul_col,
    lemma_mmul_mvec,
};
use crate::kernels::is_cholesky;
use crate::triangular::{
    backward_from_s, backward_s, below_s, chol_solve_mat_s, chol_solve_s, forward_s, forward_upto_s,
    lemma_backward_len, lemma_forward_len, lower_rows, sub_dot_s,
};

verus! {

/// The lower triangular matrix whose rows start with the entries of `l`.
pub open spec fn lower_s(l: Seq<Seq<real>>) -> Mat<real> {
    Mat::build(
        l.len(),
        l.len(),
        |i: int, j: int|
            if j <= i {
                l[i][j]
            } else {
                0real
            },
    )
}

/// No pivot is zero.
pub open spec fn pivots(l: Seq<Seq<real>>) -> bool {
    forall|i: int| 0 <= i < l.len() ==> #[trigger] l[i][i] != 0real
}

/// `L * L^T`.
pub open spec fn gram_s(l: Seq<Seq<real>>) -> Mat<real> {
    mmul_s(lower_s(l), transpose_s(lower_s(l)))
}

proof fn lemma_sub_dot(acc: real, a: Seq<real>, b: Seq<real>, n: nat)
    ensures
        sub_dot_s(acc, a, b, n) == acc - dot_upto_s(a, b, n),
    decreases n,
{
    if n > 0 {
        lemma_sub_dot(acc, a, b, (n - 1) as nat);
    }
}

proof fn lemma_div_back(a: real, b: real)
    requires
        b != 0real,
    ensures
        b * (a / b) == a,
{
    assert(b * (a / b) == a) by (nonlinear_arith)
        requires
            b != 0real,
    ;
}

/// Row `i` of a lower triangular matrix reaches to its diagonal.
pub proof fn lemma_lower_row(l: Seq<Seq<real>>, w: Seq<real>, i: int)
    requires
        lower_rows(l),
        w.len() == l.len(),
        0 <= i < l.len(),
    ensures
        mvec_s(lower_s(l), w)[i] == dot_upto_s(l[i], w, (i + 1) as nat),
{
    let n = l.len();
    let row = lower_s(l).rows[i];
    let k = (i + 1) as nat;
    lemma_dot_split(row, w, k, n);
    let (rt, wt) = (slice_s(row, k, (n - k) as nat), slice_s(w, k, (n - k) as nat));
    assert forall|j: int| 0 <= j < n - k implies #[trigger] rt[j] * wt[j] == 0real by {
        let y = wt[j];
        assert(rt[j] == 0real);
        assert(0real * y == 0real) by (nonlinear_arith);
    }
    lemma_dot_zero_upto(rt, wt, (n - k) as nat);
    lemma_dot_agree(row, w, l[i], w, k);
}

/// Row `i` of the transpose: the pivot and what stands below it.
proof fn lemma_upper_row(l: Seq<Seq<real>>, x: Seq<real>, i: int)
    requires
        lower_rows(l),
        x.len() == l.len(),
        0 <= i < l.len(),
    ensures
        mvec_s(transpose_s(lower_s(l)), x)[i] == l[i][i] * x[i] + dot_upto_s(
            below_s(l, i),
            slice_s(x, (i + 1) as nat, (l.len() - i - 1) as nat),
            (l.len() - i - 1) as nat,
        ),
{
    let n = l.len();
    let row = transpose_s(lower_s(l)).rows[i];
    let k = (i + 1) as nat;
    lemma_dot_split(row, x, k, n);
    assert forall|j: int| 0 <= j < i implies #[trigger] row[j] * x[j] == 0real by {
        let y = x[j];
        assert(row[j] == 0real);
        assert(0real * y == 0real) by (nonlinear_arith);
    }
    lemma_dot_zero_upto(row, x, i as nat);
    assert(row[i] == l[i][i]);
    assert(slice_s(row, k, (n - k) as nat) =~= below_s(l, i));
}

/// The entries of a forward substitution do not change as it goes on.
proof fn lemma_forward_prefix(l: Seq<Seq<real>>, rhs: Seq<real>, k: nat, n: nat)
    requires
        k <= n,
    ensures
        forward_upto_s(l, rhs, n).len() == n,
        forward_upto_s(l, rhs, n).take(k as int) == forward_upto_s(l, rhs, k),
    decreases n,
{
    lemma_forward_len(l, rhs, n);
    lemma_forward_len(l, rhs, k);
    if k < n {
        lemma_forward_prefix(l, rhs, k, (n - 1) as nat);
        let w = forward_upto_s(l, rhs, n);
        assert(w.take(k as int) =~= forward_upto_s(l, rhs, (n - 1) as nat).take(k as int));
    } else {
        assert(forward_upto_s(l, rhs, n).take(k as int) =~= forward_upto_s(l, rhs, n));
    }
}

/// Forward substitution solves `L * w = rhs`.
pub proof fn law_forward(l: Seq<Seq<real>>, rhs: Seq<real>)
    requires
        lower_rows(l),
        pivots(l),
        rhs.len() == l.len(),
    ensures
        mvec_s(lower_s(l), forward_s(l, rhs)) == rhs,
{
    let n = l.len();
    let w = forward_s(l, rhs);
    lemma_forward_len(l, rhs, n);
    assert forall|i: int| 0 <= i < n implies mvec_s(lower_s(l), w)[i] == rhs[i] by {
        lemma_lower_row(l, w, i);
        lemma_forward_prefix(l, rhs, (i + 1) as nat, n);
        lemma_forward_prefix(l, rhs, i as nat, n);
        let head = forward_upto_s(l, rhs, i as nat);
        let next = forward_upto_s(l, rhs, (i + 1) as nat);
        assert(w[i] == w.take(i + 1)[i]);
        assert forall|j: int| 0 <= j < i implies head[j] == w[j] by {
            assert(w.take(i)[j] == w[j]);
        }
        lemma_sub_dot(rhs[i], l[i], head, i as nat);
        lemma_dot_agree(l[i], head, l[i], w, i as nat);
        lemma_div_back(rhs[i] - dot_upto_s(l[i], head, i as nat), l[i][i]);
    }
    assert(mvec_s(lower_s(l), w) =~= rhs);
}

/// The entries of a backward substitution do not change as it goes on.
proof fn lemma_backward_suffix(l: Seq<Seq<real>>, w: Seq<real>, i: nat, k: nat)
    requires
        i <= k <= l.len(),
    ensures
        backward_from_s(l, w, i).len() == l.len() - i,
        backward_from_s(l, w, k).len() == l.len() - k,
        forall|j: int|
            0 <= j < l.len() - k ==> #[trigger] backward_from_s(l, w, k)[j] == backward_from_s(
                l,
                w,
                i,
            )[k - i + j],
    decreases k - i,
{
    lemma_backward_len(l, w, i);
    lemma_backward_len(l, w, k);
    if i < k {
        lemma_backward_suffix(l, w, i + 1, k);
        lemma_backward_len(l, w, i + 1);
    }
}

/// Backward substitution solves `L^T * x = w`.
pub proof fn law_backward(l: Seq<Seq<real>>, w: Seq<real>)
    requires
        lower_rows(l),
        pivots(l),
        w.len() == l.len(),
    ensures
        backward_s(l, w).len() == l.len(),
        mvec_s(transpose_s(lower_s(l)), backward_s(l, w)) == w,
{
    let n = l.len();
    let x = backward_s(l, w);
    lemma_backward_len(l, w, 0);
    assert forall|i: int| 0 <= i < n implies mvec_s(transpose_s(lower_s(l)), x)[i] == w[i] by {
        lemma_upper_row(l, x, i);
        lemma_backward_suffix(l, w, 0, i as nat);
        lemma_backward_suffix(l, w, 0, (i + 1) as nat);
        let from = backward_from_s(l, w, i as nat);
        let tail = backward_from_s(l, w, (i + 1) as nat);
        assert(from[0] == x[i]);
        assert(tail =~= slice_s(x, (i + 1) as nat, (n - i - 1) as nat));
        lemma_sub_dot(w[i], below_s(l, i), tail, tail.len());
        lemma_div_back(w[i] - dot_upto_s(below_s(l, i), tail, tail.len()), l[i][i]);
    }
    assert(mvec_s(transpose_s(lower_s(l)), x) =~= w);
}

/// The two substitutions together solve `L * L^T * x = b`.
pub proof fn law_chol_solve(l: Seq<Seq<real>>, b: Seq<real>)
    requires
        lower_rows(l),
        pivots(l),
        b.len() == l.len(),
    ensures
        chol_solve_s(l, b).len() == l.len(),
        mvec_s(gram_s(l), chol_solve_s(l, b)) == b,
{
    let w = forward_s(l, b);
    lemma_forward_len(l, b, b.len());
    law_forward(l, b);
    law_backward(l, w);
    lemma_mmul_mvec(lower_s(l), transpose_s(lower_s(l)), chol_solve_s(l, b));
}

/// The same for every column of a matrix.
pub proof fn law_chol_solve_mat(l: Seq<Seq<real>>, b: Mat<real>)
    requires
        lower_rows(l),
        pivots(l),
        b.shaped(l.len(), b.ncols()),
    ensures
        chol_solve_mat_s(l, b).shaped(l.len(), b.ncols()),
        mmul_s(gram_s(l), chol_solve_mat_s(l, b)) == b,
{
    let x = chol_solve_mat_s(l, b);
    let p = mmul_s(gram_s(l), x);
    assert forall|i: int, j: int| 0 <= i < p.nrows() && 0 <= j < p.ncols() implies #[trigger] p.at(
        i,
        j,
    ) == b.at(i, j) by {
        law_chol_solve(l, col_s(b, j));
        lemma_mmul_col(gram_s(l), x, j);
        assert(col_s(x, j) =~= chol_solve_s(l, col_s(b, j)));
        assert(col_s(p, j)[i] == col_s(b, j)[i]);
    }
    lemma_mat_eq(p, b);
}

/// A lower triangular system without zero pivots has at most one solution.
pub proof fn law_lower_unique(l: Seq<Seq<real>>, v: Seq<real>, w: Seq<real>)
    requires
        lower_rows(l),
        pivots(l),
        v.len() == l.len(),
        w.len() == l.len(),
        mvec_s(lower_s(l), v) == mvec_s(lower_s(l), w),
    ensures
        v == w,
{
    lemma_lower_agree(l, v, w, l.len());
    assert(v =~= w);
}

proof fn lemma_lower_agree(l: Seq<Seq<real>>, v: Seq<real>, w: Seq<real>, n: nat)
    requires
        lower_rows(l),
        pivots(l),
        v.len() == l.len(),
        w.len() == l.len(),
        mvec_s(lower_s(l), v) == mvec_s(lower_s(l), w),
        n <= l.len(),
    ensures
        forall|i: int| 0 <= i < n ==> #[trigger] v[i] == w[i],
    decreases n,
{
    if n > 0 {
        lemma_lower_agree(l, v, w, (n - 1) as nat);
        let i = n - 1;
        lemma_lower_row(l, v, i);
        lemma_lower_row(l, w, i);
        assert(mvec_s(lower_s(l), v)[i] == mvec_s(lower_s(l), w)[i]);
        lemma_dot_agree(l[i], v, l[i], w, i as nat);
        let (p, a, b) = (l[i][i], v[i], w[i]);
        assert(a == b) by (nonlinear_arith)
            requires
                p * a == p * b,
                p != 0real,
        ;
    }
}

/// An upper triangular system without zero pivots has at most one solution.
pub proof fn law_upper_unique(l: Seq<Seq<real>>, v: Seq<real>, w: Seq<real>)
    requires
        lower_rows(l),
        pivots(l),
        v.len() == l.len(),
        w.len() == l.len(),
        mvec_s(transpose_s(lower_s(l)), v) == mvec_s(transpose_s(lower_s(l)), w),
    ensures
        v == w,
{
    lemma_upper_agree(l, v, w, 0);
    assert(v =~= w);
}

proof fn lemma_upper_agree(l: Seq<Seq<real>>, v: Seq<real>, w: Seq<real>, n: nat)
    requires
        lower_rows(l),
        pivots(l),
        v.len() == l.len(),
        w.len() == l.len(),
        mvec_s(transpose_s(lower_s(l)), v) == mvec_s(transpose_s(lower_s(l)), w),
        n <= l.len(),
    ensures
        forall|i: int| n <= i < l.len() ==> #[trigger] v[i] == w[i],
    decreases l.len() - n,
{
    if n < l.len() {
        lemma_upper_agree(l, v, w, n + 1);
        let i = n as int;
        lemma_upper_row(l, v, i);
        lemma_upper_row(l, w, i);
        let u = transpose_s(lower_s(l));
        assert(mvec_s(u, v)[i] == mvec_s(u, w)[i]);
        let m = (l.len() - i - 1) as nat;
        assert(slice_s(v, (i + 1) as nat, m) =~= slice_s(w, (i + 1) as nat, m));
        let (p, a, b) = (l[i][i], v[i], w[i]);
        assert(a == b) by (nonlinear_arith)
            requires
                p * a == p * b,
                p != 0real,
        ;
    }
}

/// `L * L^T` is regular: the substitutions give its only solution.
pub proof fn law_gram_unique(l: Seq<Seq<real>>, v: Seq<real>, w: Seq<real>)
    requires
        lower_rows(l),
        pivots(l),
        v.len() == l.len(),
        w.len() == l.len(),
        mvec_s(gram_s(l), v) == mvec_s(gram_s(l), w),
    ensures
        v == w,
{
    let (a, u) = (lower_s(l), transpose_s(lower_s(l)));
    lemma_mmul_mvec(a, u, v);
    lemma_mmul_mvec(a, u, w);
    law_lower_unique(l, mvec_s(u, v), mvec_s(u, w));
    law_upper_unique(l, v, w);
}

/// `L * L^T` is symmetric.
pub proof fn law_gram_symmetric(l: Seq<Seq<real>>)
    ensures
        transpose_s(gram_s(l)) == gram_s(l),
{
    let g = gram_s(l);
    let (a, u) = (lower_s(l), transpose_s(lower_s(l)));
    assert forall|i: int, j: int| 0 <= i < l.len() && 0 <= j < l.len() implies #[trigger] g.at(i, j)
        == transpose_s(g).at(i, j) by {
        assert(col_s(u, j) =~= a.rows[j]);
        assert(col_s(u, i) =~= a.rows[i]);
        lemma_dot_comm_upto(a.rows[i], a.rows[j], l.len());
    }
    lemma_mat_eq(transpose_s(g), g);
}

/// The rows of a Cholesky factor are ready for the substitutions, and their
/// product is the factored matrix.
pub proof fn law_cholesky_rows(l: Mat<real>, a: Mat<real>)
    requires
        is_cholesky(l, a),
    ensures
        lower_rows(l.rows),
        pivots(l.rows),
        lower_s(l.rows) == l,
        gram_s(l.rows) == a,
{
    assert forall|i: int| 0 <= i < l.rows.len() implies #[trigger] l.rows[i][i] != 0real by {
        assert(l.at(i, i) > 0real);
    }
    let t = lower_s(l.rows);
    assert forall|i: int, j: int| 0 <= i < l.nrows() && 0 <= j < l.ncols() implies #[trigger] t.at(
        i,
        j,
    ) == l.at(i, j) by {
        if i < j {
            assert(l.at(i, j) == 0real);
        }
    }
    lemma_mat_eq(t, l);
}

} // verus!
