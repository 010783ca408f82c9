//! Every matrix has a null-space basis, so that the exact null-space kernel is
//! what its name says.

use vstd::prelude::*;

use crate::dense::{
    col_s, dot_s, identity_s, lemma_mat_eq, mmul_s, mvec_s, mzeros_s, vscale_s, vzeros_s, Mat,
};
use crate::exact::{
    assoc, distrib, lemma_dot_agree, lemma_dot_comm, lemma_dot_scale, lemma_dot_single,
    lemma_identity_mvec, lemma_mmul_col, lemma_mmul_mvec, lemma_mvec_scale, lemma_mzeros_mvec,
};
use crate::kernels::{is_null_basis, is_regular, is_solution, DenseKernels};
use crate::laws::factor::lemma_dot_remove;
use crate::laws::rotation::lemma_over;

verus! {

/// A basis of the vectors that `r` annihilates, by its pivot `j`.
spec fn plane_s(r: Seq<real>, j: int) -> Mat<real> {
    Mat::build(
        r.len(),
        (r.len() - 1) as nat,
        |i: int, c: int|
            if i == j {
                (-(1real / r[j])) * r.remove(j)[c]
            } else if i < j && c == i || i > j && c == i - 1 {
                1real
            } else {
                0real
            },
    )
}

proof fn lemma_plane(r: Seq<real>, j: int, w: Seq<real>)
    requires
        0 <= j < r.len(),
        r[j] != 0real,
        w.len() == r.len() - 1,
    ensures
        mvec_s(plane_s(r, j), w).len() == r.len(),
        mvec_s(plane_s(r, j), w).remove(j) == w,
        mvec_s(plane_s(r, j), w)[j] == (-(1real / r[j])) * dot_s(r.remove(j), w),
{
    let p = plane_s(r, j);
    let u = mvec_s(p, w);
    let k = w.len();
    assert forall|c: int| 0 <= c < k implies u.remove(j)[c] == w[c] by {
        let i = if c < j {
            c
        } else {
            c + 1
        };
        let row = p.rows[i];
        assert forall|d: int| 0 <= d < k && d != c implies #[trigger] row[d] == 0real by {}
        lemma_dot_single(row, w, c, k);
        let y = w[c];
        assert(row[c] == 1real);
        assert(1real * y == y) by (nonlinear_arith);
    }
    assert(u.remove(j) =~= w);
    let g = -(1real / r[j]);
    assert(p.rows[j] =~= vscale_s(g, r.remove(j)));
    lemma_dot_scale(w, g, r.remove(j));
}

proof fn lemma_plane_zero(r: Seq<real>, j: int, w: Seq<real>)
    requires
        0 <= j < r.len(),
        r[j] != 0real,
        w.len() == r.len() - 1,
    ensures
        dot_s(r, mvec_s(plane_s(r, j), w)) == 0real,
{
    let u = mvec_s(plane_s(r, j), w);
    lemma_plane(r, j, w);
    lemma_dot_remove(r, u, j, (r.len() - 1) as nat);
    let (rj, d) = (r[j], dot_s(r.remove(j), w));
    lemma_over(1real, rj);
    let g = 1real / rj;
    assoc(rj, -g, d);
    distrib(rj, g, 0real);
    assert((-1real) * d == -d) by (nonlinear_arith);
}

proof fn lemma_plane_spans(r: Seq<real>, j: int, v: Seq<real>)
    requires
        0 <= j < r.len(),
        r[j] != 0real,
        v.len() == r.len(),
        dot_s(r, v) == 0real,
    ensures
        mvec_s(plane_s(r, j), v.remove(j)) == v,
{
    let w = v.remove(j);
    let u = mvec_s(plane_s(r, j), w);
    lemma_plane(r, j, w);
    lemma_dot_remove(r, v, j, (r.len() - 1) as nat);
    let (rj, vj) = (r[j], v[j]);
    let g = 1real / rj;
    lemma_over(1real, rj);
    let d = dot_s(r.remove(j), w);
    assert(d == -(rj * vj));
    distrib(g, d, 0real);
    distrib(g, rj * vj, 0real);
    assoc(g, rj, vj);
    distrib(rj, g, 0real);
    assert(1real * vj == vj) by (nonlinear_arith);
    assert(u[j] == v[j]);
    assert forall|i: int| 0 <= i < v.len() implies u[i] == v[i] by {
        if i < j {
            assert(u.remove(j)[i] == w[i]);
        } else if i > j {
            assert(u.remove(j)[i - 1] == w[i - 1]);
        }
    }
    assert(u =~= v);
}

/// The first `m` rows.
spec fn head_s(a: Mat<real>, m: nat) -> Mat<real> {
    Mat { cols: a.cols, rows: a.rows.take(m as int) }
}

proof fn lemma_head_mvec(a: Mat<real>, m: nat, v: Seq<real>)
    requires
        m < a.nrows(),
    ensures
        mvec_s(head_s(a, m + 1), v) == mvec_s(head_s(a, m), v).push(dot_s(a.rows[m as int], v)),
{
    assert(mvec_s(head_s(a, m + 1), v) =~= mvec_s(head_s(a, m), v).push(
        dot_s(a.rows[m as int], v),
    ));
}

/// A null-space basis gives one for one row more.
proof fn lemma_grow(a: Mat<real>, m: nat, z: Mat<real>) -> (y: Mat<real>)
    requires
        a.wf(),
        m < a.nrows(),
        is_null_basis(z, head_s(a, m)),
    ensures
        is_null_basis(y, head_s(a, m + 1)),
        y.ncols() + 1 >= z.ncols(),
{
    let n = a.ncols();
    let (h, g) = (head_s(a, m), head_s(a, m + 1));
    let row = a.rows[m as int];
    let one = Mat { cols: n, rows: seq![row] };
    let k = z.ncols();
    let r = mmul_s(one, z).rows[0];
    assert(r.len() == k);
    // what the new row does to a combination of the basis
    assert forall|u: Seq<real>| u.len() == k implies dot_s(row, #[trigger] mvec_s(z, u)) == dot_s(
        r,
        u,
    ) by {
        lemma_mmul_mvec(one, z, u);
        assert(mvec_s(mmul_s(one, z), u)[0] == mvec_s(one, mvec_s(z, u))[0]);
    }
    if r == vzeros_s::<real>(k) {
        let p = mmul_s(g, z);
        assert forall|i: int, c: int| 0 <= i < m + 1 && 0 <= c < k implies #[trigger] p.at(i, c)
            == mzeros_s::<real>(m + 1, k).at(i, c) by {
            if i < m {
                assert(mmul_s(h, z).at(i, c) == mzeros_s::<real>(m, k).at(i, c));
            } else {
                assert(p.at(i, c) == r[c]);
            }
        }
        lemma_mat_eq(p, mzeros_s::<real>(m + 1, k));
        assert forall|v: Seq<real>|
            v.len() == n && #[trigger] mvec_s(g, v) == vzeros_s::<real>(m + 1) implies exists|
            w: Seq<real>,
        | w.len() == k && #[trigger] mvec_s(z, w) == v by {
            lemma_head_mvec(a, m, v);
            assert(mvec_s(h, v) =~= mvec_s(g, v).drop_last());
            assert(mvec_s(h, v) =~= vzeros_s::<real>(m));
        }
        z
    } else {
        let j = choose|j: int| 0 <= j < k && r[j] != 0real;
        assert(0 <= j < k && r[j] != 0real) by {
            if forall|i: int| 0 <= i < k ==> r[i] == 0real {
                assert(r =~= vzeros_s::<real>(k));
            }
        }
        let w0 = plane_s(r, j);
        let y = mmul_s(z, w0);
        let p = mmul_s(g, y);
        assert forall|i: int, c: int| 0 <= i < m + 1 && 0 <= c < k - 1 implies #[trigger] p.at(i, c)
            == mzeros_s::<real>(m + 1, (k - 1) as nat).at(i, c) by {
            let u = col_s(w0, c);
            lemma_mmul_col(z, w0, c);
            if i < m {
                lemma_mmul_mvec(h, z, u);
                lemma_mzeros_mvec(m, k, u);
                assert(mvec_s(h, mvec_s(z, u))[i] == 0real);
            } else {
                let e = Seq::new((k - 1) as nat, |d: int| if d == c { 1real } else { 0real });
                assert forall|q: int| 0 <= q < k implies mvec_s(w0, e)[q] == u[q] by {
                    lemma_dot_comm(w0.rows[q], e);
                    lemma_dot_single(e, w0.rows[q], c, (k - 1) as nat);
                    let t = w0.rows[q][c];
                    assert(1real * t == t) by (nonlinear_arith);
                }
                assert(mvec_s(w0, e) =~= u);
                lemma_plane_zero(r, j, e);
                assert(dot_s(row, mvec_s(z, u)) == dot_s(r, u));
            }
        }
        lemma_mat_eq(p, mzeros_s::<real>(m + 1, (k - 1) as nat));
        assert forall|w: Seq<real>|
            w.len() == k - 1 && #[trigger] mvec_s(y, w) == vzeros_s::<real>(n) implies w
            == vzeros_s::<real>((k - 1) as nat) by {
            lemma_mmul_mvec(z, w0, w);
            let u = mvec_s(w0, w);
            assert(mvec_s(z, u) == vzeros_s::<real>(n));
            lemma_plane(r, j, w);
            assert(w =~= vzeros_s::<real>((k - 1) as nat)) by {
                assert forall|c: int| 0 <= c < k - 1 implies w[c] == 0real by {
                    assert(u.remove(j)[c] == w[c]);
                }
            }
        }
        assert forall|v: Seq<real>|
            v.len() == n && #[trigger] mvec_s(g, v) == vzeros_s::<real>(m + 1) implies exists|
            w: Seq<real>,
        | w.len() == k - 1 && #[trigger] mvec_s(y, w) == v by {
            lemma_head_mvec(a, m, v);
            assert(mvec_s(h, v) =~= mvec_s(g, v).drop_last());
            assert(mvec_s(h, v) =~= vzeros_s::<real>(m));
            let u = choose|u: Seq<real>| u.len() == k && #[trigger] mvec_s(z, u) == v;
            assert(dot_s(row, mvec_s(z, u)) == dot_s(r, u));
            assert(mvec_s(g, v)[m as int] == 0real);
            let w = u.remove(j);
            lemma_plane_spans(r, j, u);
            lemma_mmul_mvec(z, w0, w);
            assert(mvec_s(y, w) == v);
        }
        y
    }
}

proof fn lemma_exists_upto(a: Mat<real>, m: nat) -> (z: Mat<real>)
    requires
        a.wf(),
        m <= a.nrows(),
    ensures
        is_null_basis(z, head_s(a, m)),
        z.ncols() + m >= a.ncols(),
    decreases m,
{
    let n = a.ncols();
    if m == 0 {
        let z = identity_s::<real>(n);
        let h = head_s(a, 0);
        lemma_mat_eq(mmul_s(h, z), mzeros_s::<real>(0, n));
        assert forall|v: Seq<real>|
            v.len() == n && #[trigger] mvec_s(z, v) == vzeros_s::<real>(n) implies v
            == vzeros_s::<real>(n) by {
            lemma_identity_mvec(v);
        }
        assert forall|v: Seq<real>|
            v.len() == n && #[trigger] mvec_s(h, v) == vzeros_s::<real>(0) implies exists|
            w: Seq<real>,
        | w.len() == n && #[trigger] mvec_s(z, w) == v by {
            lemma_identity_mvec(v);
            assert(mvec_s(z, v) == v);
        }
        z
    } else {
        let z = lemma_exists_upto(a, (m - 1) as nat);
        lemma_grow(a, (m - 1) as nat, z)
    }
}

/// The exact null-space kernel returns a basis of the null space, of every
/// matrix.
pub proof fn law_null_space(a: Mat<real>)
    requires
        a.wf(),
    ensures
        is_null_basis(real::null_space_s(a), a),
{
    let z = lemma_exists_upto(a, a.nrows());
    assert(a.rows.take(a.nrows() as int) =~= a.rows);
    assert(head_s(a, a.nrows()) == a);
    assert(is_null_basis(z, a));
}

/// A matrix with more columns than rows maps some vector other than zero to
/// zero.
proof fn lemma_wide(a: Mat<real>) -> (v: Seq<real>)
    requires
        a.wf(),
        a.nrows() < a.ncols(),
    ensures
        v.len() == a.ncols(),
        v != vzeros_s::<real>(a.ncols()),
        mvec_s(a, v) == vzeros_s::<real>(a.nrows()),
{
    let z = lemma_exists_upto(a, a.nrows());
    assert(a.rows.take(a.nrows() as int) =~= a.rows);
    assert(head_s(a, a.nrows()) == a);
    let k = z.ncols();
    let e = Seq::new(k, |i: int| 1real);
    let v = mvec_s(z, e);
    lemma_mmul_mvec(a, z, e);
    lemma_mzeros_mvec(a.nrows(), k, e);
    assert(e[0] != vzeros_s::<real>(k)[0]);
    v
}

/// A regular square matrix reaches every vector.
proof fn lemma_regular_vec(a: Mat<real>, b: Seq<real>) -> (x: Seq<real>)
    requires
        a.shaped(b.len(), b.len()),
        is_regular(a),
    ensures
        x.len() == b.len(),
        mvec_s(a, x) == b,
{
    let n = b.len();
    let w = Mat { cols: n + 1, rows: Seq::new(n, |i: int| a.rows[i].push(-b[i])) };
    let v = lemma_wide(w);
    let (u, t) = (v.take(n as int), v[n as int]);
    assert forall|i: int| 0 <= i < n implies #[trigger] mvec_s(a, u)[i] == t * b[i] by {
        assert(mvec_s(w, v)[i] == 0real);
        lemma_dot_agree(w.rows[i], v, a.rows[i], u, n);
        let c = b[i];
        assert((-c) * t == -(t * c)) by (nonlinear_arith);
    }
    if t == 0real {
        assert(mvec_s(a, u) =~= vzeros_s::<real>(n)) by {
            assert forall|i: int| 0 <= i < n implies mvec_s(a, u)[i] == 0real by {
                let c = b[i];
                assert(0real * c == 0real) by (nonlinear_arith);
            }
        }
        assert(v =~= vzeros_s::<real>(n + 1)) by {
            assert forall|i: int| 0 <= i < n implies v[i] == 0real by {
                assert(u[i] == 0real);
            }
        }
    }
    let g = 1real / t;
    lemma_over(1real, t);
    let x = vscale_s(g, u);
    lemma_mvec_scale(a, g, u);
    assert forall|i: int| 0 <= i < n implies mvec_s(a, x)[i] == b[i] by {
        let c = b[i];
        assert(mvec_s(a, u)[i] == t * b[i]);
        assoc(g, t, c);
        distrib(t, g, 0real);
        assert(1real * c == c) by (nonlinear_arith);
    }
    assert(mvec_s(a, x) =~= b);
    x
}

/// A square matrix that maps only zero to zero solves every system: the exact
/// LU kernel never refuses it.
pub proof fn law_regular_solvable(a: Mat<real>, b: Mat<real>)
    requires
        a.shaped(b.nrows(), b.nrows()),
        b.wf(),
        is_regular(a),
    ensures
        real::lu_solve_s(a, b) is Some,
        is_solution(real::lu_solve_s(a, b)->0, a, b),
{
    let n = b.nrows();
    let cols = |j: int| choose|x: Seq<real>| x.len() == n && #[trigger] mvec_s(a, x) == col_s(b, j);
    let x = Mat::build(n, b.ncols(), |i: int, j: int| cols(j)[i]);
    let p = mmul_s(a, x);
    assert forall|i: int, j: int| 0 <= i < n && 0 <= j < b.ncols() implies #[trigger] p.at(i, j)
        == b.at(i, j) by {
        let y = lemma_regular_vec(a, col_s(b, j));
        assert(y.len() == n && mvec_s(a, y) == col_s(b, j));
        lemma_mmul_col(a, x, j);
        assert(col_s(x, j) =~= cols(j));
        assert(mvec_s(a, cols(j)) == col_s(b, j));
        assert(col_s(p, j)[i] == col_s(b, j)[i]);
    }
    lemma_mat_eq(p, b);
    assert(is_solution(x, a, b));
}

} // verus!
