//! Laws of the written-out factorisations, in exact arithmetic.

use vstd::prelude::*;

use crate::dense::{
    col_s, dot_s, dot_upto_s, lemma_mat_eq, mmul_s, mvec_s, norm_sq_s, slice_s, transpose_s, vadd_s,
    vover_s, vscale_s, vzeros_s, Mat,
};
use crate::elimination::{
    augmented_s, chol_factor_s, chol_upto_s, jordan_solve_s, jordan_upto_s, pivot_s, reduce_s,
    rows_wide, swapped_s,
};
use crate::exact::{
    lemma_dot_add, lemma_dot_agree, lemma_dot_comm_upto, lemma_dot_concat, lemma_dot_scale,
    lemma_dot_single, lemma_dot_zero, lemma_dot_zero_upto,
};
use crate::kernels::{is_cholesky, is_regular, is_solution};
use crate::laws::factor::lemma_gram_entry;
use crate::laws::rotation::lemma_over;
use crate::laws::triangular::{
    gram_s, law_forward, law_gram_symmetric, law_lower_unique, lemma_lower_row, lower_s,
};
use crate::scalar::{is_root, roots_exist, Arith};
use crate::triangular::{forward_s, lemma_forward_len, lower_rows};

verus! {

/// Entry `(i, j)` of `L * L^T` is that of `a`.
spec fn chol_entry(a: Mat<real>, l: Seq<Seq<real>>, i: int, j: int) -> bool {
    dot_upto_s(l[i], l[j], (j + 1) as nat) == a.at(i, j)
}

proof fn lemma_chol_upto(a: Mat<real>, k: nat, l: Seq<Seq<real>>)
    requires
        a.shaped(a.nrows(), a.nrows()),
        k <= a.nrows(),
        chol_upto_s(a, k) == Some(l),
        roots_exist(),
    ensures
        l.len() == k,
        forall|i: int| 0 <= i < k ==> (#[trigger] l[i]).len() == i + 1,
        forall|i: int| 0 <= i < k ==> #[trigger] l[i][i] > 0real,
        forall|i: int, j: int| 0 <= j <= i < k ==> #[trigger] chol_entry(a, l, i, j),
    decreases k,
{
    if k > 0 {
        let m = k - 1;
        let h = chol_upto_s(a, m as nat)->0;
        lemma_chol_upto(a, m as nat, h);
        let s = slice_s(a.rows[m], 0, m as nat);
        let w = forward_s(h, s);
        let d = a.at(m, m) - norm_sq_s(w);
        lemma_forward_len(h, s, m as nat);
        assert forall|i: int| 0 <= i < m implies #[trigger] h[i][i] != 0real by {
            assert(h[i][i] > 0real);
        }
        law_forward(h, s);
        let r = d.sqrt_s();
        assert(is_root(d, r));
        assert(r > 0real) by (nonlinear_arith)
            requires
                r >= 0real,
                r * r == d,
                d > 0real,
        ;
        assert forall|i: int| 0 <= i < k implies #[trigger] l[i][i] > 0real by {
            if i < m {
                assert(h[i][i] > 0real);
            }
        }
        assert forall|i: int, j: int| 0 <= j <= i < k implies #[trigger] chol_entry(a, l, i, j) by {
            if i < m {
                assert(chol_entry(a, h, i, j));
            } else if j < m {
                lemma_lower_row(h, w, j);
                assert(mvec_s(lower_s(h), w)[j] == s[j]);
                lemma_dot_comm_upto(l[m], h[j], (j + 1) as nat);
                lemma_dot_agree(h[j], l[m], h[j], w, (j + 1) as nat);
            } else {
                lemma_dot_agree(l[m], l[m], w, w, m as nat);
            }
        }
    }
}

/// The factorisation by rows gives the Cholesky factor of a symmetric matrix.
pub proof fn law_chol_factor(a: Mat<real>, l: Mat<real>)
    requires
        a.shaped(a.nrows(), a.nrows()),
        transpose_s(a) == a,
        chol_factor_s(a) == Some(l),
        roots_exist(),
    ensures
        is_cholesky(l, a),
{
    let n = a.nrows();
    let r = chol_upto_s(a, n)->0;
    lemma_chol_upto(a, n, r);
    let t = lower_s(r);
    assert forall|i: int, j: int| 0 <= i < n && 0 <= j < n implies #[trigger] l.at(i, j) == t.at(
        i,
        j,
    ) by {}
    lemma_mat_eq(l, t);
    assert forall|i: int| 0 <= i < n implies #[trigger] l.at(i, i) > 0real by {
        assert(r[i][i] > 0real);
    }
    let g = gram_s(r);
    law_gram_symmetric(r);
    assert(lower_rows(r));
    assert forall|i: int, j: int| 0 <= i < n && 0 <= j < n implies #[trigger] g.at(i, j) == a.at(
        i,
        j,
    ) by {
        if j <= i {
            lemma_gram_entry(r, i, j);
            assert(chol_entry(a, r, i, j));
        } else {
            lemma_gram_entry(r, j, i);
            assert(chol_entry(a, r, j, i));
            assert(transpose_s(g).at(i, j) == g.at(j, i));
            assert(transpose_s(a).at(i, j) == a.at(j, i));
        }
    }
    lemma_mat_eq(g, a);
}

/// Every row annihilates `u`.
pub open spec fn annihilate(m: Seq<Seq<real>>, u: Seq<real>) -> bool {
    forall|i: int| 0 <= i < m.len() ==> dot_s(#[trigger] m[i], u) == 0real
}

pub proof fn lemma_pivot_range(m: Seq<Seq<real>>, k: int, col: int, i: int)
    requires
        0 <= k < i <= m.len(),
    ensures
        k <= pivot_s(m, k, col, i) < i,
    decreases i,
{
    if i > k + 1 {
        lemma_pivot_range(m, k, col, i - 1);
    }
}

/// An elimination step is reversible: what the reduced rows annihilate, the
/// rows before did.
proof fn lemma_reduce(
    m: Seq<Seq<real>>,
    k: int,
    col: int,
    w: nat,
    r: Seq<Seq<real>>,
    u: Seq<real>,
)
    requires
        rows_wide(m, w),
        0 <= k < m.len(),
        0 <= col < w,
        reduce_s(m, k, col, 0real) == Some(r),
        u.len() == w,
        annihilate(r, u),
    ensures
        annihilate(m, u),
{
    let p = pivot_s(m, k, col, m.len() as int);
    lemma_pivot_range(m, k, col, m.len() as int);
    let e = swapped_s(m, k, p);
    let piv = e[k][col];
    let unit = vover_s(e[k], piv);
    assert(r[k] == unit);
    assert(dot_s(unit, u) == 0real);
    assert(e[k] =~= vscale_s(piv, unit)) by {
        assert forall|j: int| 0 <= j < w implies e[k][j] == piv * unit[j] by {
            lemma_over(e[k][j], piv);
        }
    }
    lemma_dot_scale(u, piv, unit);
    assert(piv * 0real == 0real) by (nonlinear_arith);
    assert forall|i: int| 0 <= i < e.len() implies dot_s(#[trigger] e[i], u) == 0real by {
        if i != k {
            let f = e[i][col];
            assert(dot_s(r[i], u) == 0real);
            lemma_dot_add(u, e[i], vscale_s(f, unit));
            lemma_dot_scale(u, f, unit);
            assert(f * 0real == 0real) by (nonlinear_arith);
        }
    }
    assert forall|i: int| 0 <= i < m.len() implies dot_s(#[trigger] m[i], u) == 0real by {
        let j = if i == k {
            p
        } else if i == p {
            k
        } else {
            i
        };
        assert(e[j] == m[i]);
    }
}

/// The first `k` columns are unit vectors.
spec fn units(m: Seq<Seq<real>>, k: int) -> bool {
    forall|i: int, j: int|
        0 <= i < m.len() && 0 <= j < k ==> #[trigger] m[i][j] == (if i == j {
            1real
        } else {
            0real
        })
}

proof fn lemma_reduce_units(m: Seq<Seq<real>>, k: int, w: nat, r: Seq<Seq<real>>)
    requires
        rows_wide(m, w),
        0 <= k < m.len(),
        k < w,
        units(m, k),
        reduce_s(m, k, k, 0real) == Some(r),
    ensures
        rows_wide(r, w),
        r.len() == m.len(),
        units(r, k + 1),
{
    let p = pivot_s(m, k, k, m.len() as int);
    lemma_pivot_range(m, k, k, m.len() as int);
    let e = swapped_s(m, k, p);
    let piv = e[k][k];
    let unit = vover_s(e[k], piv);
    assert forall|i: int, j: int| 0 <= i < r.len() && 0 <= j < k + 1 implies #[trigger] r[i][j] == (
    if i == j {
        1real
    } else {
        0real
    }) by {
        let a = e[i][k];
        if j < k {
            assert(m[p][j] == 0real);
            assert(m[k][j] == 0real);
            assert(m[i][j] == (if i == j {
                1real
            } else {
                0real
            }));
            lemma_over(0real, piv);
            let q = 0real / piv;
            assert(q == 0real) by (nonlinear_arith)
                requires
                    piv * q == 0real,
                    piv != 0real,
            ;
            assert(unit[j] == 0real);
            assert(a * 0real == 0real) by (nonlinear_arith);
        } else {
            lemma_over(piv, piv);
            let q = piv / piv;
            assert(q == 1real) by (nonlinear_arith)
                requires
                    piv * q == piv,
                    piv != 0real,
            ;
            assert(unit[k] == 1real);
            assert(a * 1real == a) by (nonlinear_arith);
        }
    }
    assert forall|i: int| 0 <= i < r.len() implies (#[trigger] r[i]).len() == w by {}
}

proof fn lemma_jordan(m: Seq<Seq<real>>, w: nat, k: nat, e: Seq<Seq<real>>)
    requires
        rows_wide(m, w),
        k <= m.len(),
        k <= w,
        jordan_upto_s(m, k) == Some(e),
    ensures
        rows_wide(e, w),
        e.len() == m.len(),
        units(e, k as int),
        forall|u: Seq<real>| u.len() == w && #[trigger] annihilate(e, u) ==> annihilate(m, u),
    decreases k,
{
    if k > 0 {
        let h = jordan_upto_s(m, (k - 1) as nat)->0;
        lemma_jordan(m, w, (k - 1) as nat, h);
        lemma_reduce_units(h, k - 1, w, e);
        assert forall|u: Seq<real>| u.len() == w && #[trigger] annihilate(e, u) implies annihilate(
            m,
            u,
        ) by {
            lemma_reduce(h, k - 1, k - 1, w, e, u);
        }
    }
}

/// Elimination gives a solution.
pub proof fn law_jordan_solve(a: Mat<real>, b: Mat<real>, x: Mat<real>)
    requires
        a.shaped(a.nrows(), a.nrows()),
        b.shaped(a.nrows(), b.ncols()),
        jordan_solve_s(a, b) == Some(x),
    ensures
        is_solution(x, a, b),
{
    let (n, c) = (a.nrows(), b.ncols());
    let m = augmented_s(a, b);
    let e = jordan_upto_s(m, n)->0;
    assert(rows_wide(m, n + c));
    lemma_jordan(m, n + c, n, e);
    let p = mmul_s(a, x);
    assert forall|i: int, j: int| 0 <= i < n && 0 <= j < c implies #[trigger] p.at(i, j) == b.at(
        i,
        j,
    ) by {
        let xj = col_s(x, j);
        let pick = Seq::new(c, |t: int| if t == j { -1real } else { 0real });
        let u = xj + pick;
        assert forall|r: int| 0 <= r < n implies dot_s(#[trigger] e[r], u) == 0real by {
            let (l, s) = (slice_s(e[r], 0, n), slice_s(e[r], n, c));
            assert(e[r] =~= l + s);
            lemma_dot_concat(l, s, xj, pick);
            assert forall|t: int| 0 <= t < n && t != r implies #[trigger] l[t] == 0real by {
                assert(e[r][t] == 0real);
            }
            assert(e[r][r] == 1real);
            lemma_dot_single(l, xj, r, n);
            lemma_dot_comm_upto(s, pick, c);
            lemma_dot_single(pick, s, j, c);
            let (y, z) = (xj[r], s[j]);
            assert(1real * y == y) by (nonlinear_arith);
            assert((-1real) * z == -z) by (nonlinear_arith);
        }
        assert(annihilate(e, u));
        assert(annihilate(m, u));
        assert(dot_s(m[i], u) == 0real);
        lemma_dot_concat(a.rows[i], b.rows[i], xj, pick);
        lemma_dot_comm_upto(b.rows[i], pick, c);
        lemma_dot_single(pick, b.rows[i], j, c);
        let z = b.rows[i][j];
        assert((-1real) * z == -z) by (nonlinear_arith);
    }
    lemma_mat_eq(p, b);
}

/// Products that vanish but for one.
proof fn lemma_dot_at(a: Seq<real>, b: Seq<real>, j: int, n: nat)
    requires
        0 <= j < n,
        forall|i: int| 0 <= i < n && i != j ==> #[trigger] a[i] * b[i] == 0real,
    ensures
        dot_upto_s(a, b, n) == a[j] * b[j],
    decreases n,
{
    if j == n - 1 {
        assert forall|i: int| 0 <= i < n - 1 implies #[trigger] a[i] * b[i] == 0real by {}
        lemma_dot_zero_upto(a, b, (n - 1) as nat);
    } else {
        lemma_dot_at(a, b, j, (n - 1) as nat);
        assert(a[n - 1] * b[n - 1] == 0real);
    }
}

/// A vanishing tail does not count.
proof fn lemma_dot_tail(a: Seq<real>, b: Seq<real>, m: nat, n: nat)
    requires
        m <= n,
        forall|i: int| m <= i < n ==> #[trigger] b[i] == 0real,
    ensures
        dot_upto_s(a, b, n) == dot_upto_s(a, b, m),
    decreases n,
{
    if m < n {
        lemma_dot_tail(a, b, m, (n - 1) as nat);
        assert(b[n - 1] == 0real);
        let x = a[n - 1];
        assert(x * 0real == 0real) by (nonlinear_arith);
    }
}

/// The first `k` rows of a factor, each up to its diagonal.
pub open spec fn cut_s(l: Mat<real>, k: nat) -> Seq<Seq<real>> {
    Seq::new(k, |i: int| slice_s(l.rows[i], 0, (i + 1) as nat))
}

proof fn lemma_chol_found(a: Mat<real>, l: Mat<real>, k: nat)
    requires
        a.shaped(a.nrows(), a.nrows()),
        is_cholesky(l, a),
        k <= a.nrows(),
    ensures
        chol_upto_s(a, k) == Some(cut_s(l, k)),
    decreases k,
{
    if k == 0 {
        assert(cut_s(l, 0) =~= Seq::empty());
    } else {
        let n = a.nrows();
        let m = (k - 1) as nat;
        lemma_chol_found(a, l, m);
        let c = cut_s(l, m);
        let rhs = slice_s(a.rows[m as int], 0, m);
        let w = forward_s(c, rhs);
        let w0 = slice_s(l.rows[m as int], 0, m);
        assert(lower_rows(c));
        assert forall|i: int| 0 <= i < c.len() implies #[trigger] c[i][i] != 0real by {
            assert(l.at(i, i) > 0real);
        }
        lemma_forward_len(c, rhs, m);
        law_forward(c, rhs);
        let p = mmul_s(l, transpose_s(l));
        assert forall|j: int| 0 <= j < m implies mvec_s(lower_s(c), w0)[j] == rhs[j] by {
            lemma_lower_row(c, w0, j);
            lemma_entry(l, a, m as int, j);
            lemma_dot_comm_upto(l.rows[m as int], l.rows[j], (j + 1) as nat);
            lemma_dot_agree(
                c[j],
                w0,
                l.rows[j],
                l.rows[m as int],
                (j + 1) as nat,
            );
        }
        assert(mvec_s(lower_s(c), w0) =~= rhs);
        law_lower_unique(c, w, w0);
        lemma_entry(l, a, m as int, m as int);
        lemma_dot_agree(w0, w0, l.rows[m as int], l.rows[m as int], m);
        let d = a.at(m as int, m as int) - norm_sq_s(w);
        let x = l.at(m as int, m as int);
        assert(d == x * x);
        assert(x > 0real);
        assert(x * x > 0real) by (nonlinear_arith)
            requires
                x > 0real,
        ;
        assert(is_root(d, x));
        let r = d.sqrt_s();
        assert(is_root(d, r));
        assert(r == x) by (nonlinear_arith)
            requires
                r * r == x * x,
                r >= 0real,
                x > 0real,
        ;
        let row = w.push(r);
        assert(row =~= slice_s(l.rows[m as int], 0, k));
        assert(c.push(row) =~= cut_s(l, k));
    }
}

/// Entry `(i, j)` of a factored matrix, at or below the diagonal.
proof fn lemma_entry(l: Mat<real>, a: Mat<real>, i: int, j: int)
    requires
        a.shaped(a.nrows(), a.nrows()),
        is_cholesky(l, a),
        0 <= j <= i < a.nrows(),
    ensures
        a.at(i, j) == dot_upto_s(l.rows[i], l.rows[j], (j + 1) as nat),
{
    let n = a.nrows();
    let p = mmul_s(l, transpose_s(l));
    assert(p.at(i, j) == dot_s(l.rows[i], col_s(transpose_s(l), j)));
    assert(col_s(transpose_s(l), j) =~= l.rows[j]);
    assert forall|t: int| j + 1 <= t < n implies #[trigger] l.rows[j][t] == 0real by {
        assert(l.at(j, t) == 0real);
    }
    lemma_dot_tail(l.rows[i], l.rows[j], (j + 1) as nat, n);
}

/// The factorisation by rows succeeds wherever there is a Cholesky factor, and
/// finds it.
pub proof fn law_chol_factor_exists(a: Mat<real>, l: Mat<real>)
    requires
        a.shaped(a.nrows(), a.nrows()),
        is_cholesky(l, a),
    ensures
        chol_factor_s(a) == Some(l),
{
    let n = a.nrows();
    lemma_chol_found(a, l, n);
    let f = chol_factor_s(a)->Some_0;
    assert forall|i: int, j: int| 0 <= i < n && 0 <= j < n implies #[trigger] f.at(i, j) == l.at(
        i,
        j,
    ) by {
        if j > i {
            assert(l.at(i, j) == 0real);
        }
    }
    lemma_mat_eq(f, l);
}

/// The pivot is the largest entry of its column, from row `k` on.
proof fn lemma_pivot_largest(m: Seq<Seq<real>>, k: int, col: int, i: int, j: int)
    requires
        0 <= k <= j < i <= m.len(),
    ensures
        m[j][col].abs_s() <= m[pivot_s(m, k, col, i)][col].abs_s(),
    decreases i,
{
    if i > k + 1 {
        if j < i - 1 {
            lemma_pivot_largest(m, k, col, i - 1, j);
        } else {
            lemma_pivot_largest(m, k, col, i - 1, k);
        }
    }
}

proof fn lemma_jordan_exists(a: Mat<real>, b: Mat<real>, k: nat)
    requires
        a.shaped(a.nrows(), a.nrows()),
        b.shaped(a.nrows(), b.ncols()),
        is_regular(a),
        k <= a.nrows(),
    ensures
        jordan_upto_s(augmented_s(a, b), k) is Some,
    decreases k,
{
    if k > 0 {
        let (n, c) = (a.nrows(), b.ncols());
        let h = k - 1;
        lemma_jordan_exists(a, b, (k - 1) as nat);
        let m = augmented_s(a, b);
        let e = jordan_upto_s(m, (k - 1) as nat)->Some_0;
        assert(rows_wide(m, n + c));
        lemma_jordan(m, n + c, (k - 1) as nat, e);
        if reduce_s(e, h, h, 0real) is None {
            assert forall|i: int| h <= i < n implies #[trigger] e[i][h] == 0real by {
                lemma_pivot_largest(e, h, h, n as int, i);
            }
            // the dependent column gives a vector that the matrix annihilates
            let u = Seq::new(
                n,
                |j: int|
                    if j < h {
                        -e[j][h]
                    } else if j == h {
                        1real
                    } else {
                        0real
                    },
            );
            let z = vzeros_s::<real>(c);
            let v = u + z;
            assert forall|i: int| 0 <= i < e.len() implies dot_s(#[trigger] e[i], v) == 0real by {
                let low = Seq::new(
                    n + c,
                    |j: int|
                        if j < h {
                            v[j]
                        } else {
                            0real
                        },
                );
                let top = Seq::new(
                    n + c,
                    |j: int|
                        if j == h {
                            1real
                        } else {
                            0real
                        },
                );
                assert(v =~= vadd_s(low, top));
                lemma_dot_add(e[i], low, top);
                assert forall|j: int| 0 <= j < n + c && j != h implies #[trigger] e[i][j] * top[j]
                    == 0real by {
                    let x = e[i][j];
                    assert(x * 0real == 0real) by (nonlinear_arith);
                }
                lemma_dot_at(e[i], top, h, n + c);
                let x = e[i][h];
                assert(x * 1real == x) by (nonlinear_arith);
                assert forall|j: int| 0 <= j < n + c && j != i implies #[trigger] e[i][j] * low[j]
                    == 0real by {
                    let (p, q) = (e[i][j], low[j]);
                    if j < h {
                        assert(e[i][j] == 0real);
                    }
                    assert(p * q == 0real) by (nonlinear_arith)
                        requires
                            p == 0real || q == 0real,
                    ;
                }
                lemma_dot_at(e[i], low, i, n + c);
                let y = low[i];
                if i < h {
                    assert(e[i][i] == 1real);
                    assert(1real * y == y) by (nonlinear_arith);
                } else {
                    let g = e[i][i];
                    assert(g * 0real == 0real) by (nonlinear_arith);
                }
            }
            assert(annihilate(e, v));
            assert(annihilate(m, v));
            let av = mvec_s(a, u);
            assert forall|i: int| 0 <= i < n implies av[i] == 0real by {
                assert(dot_s(m[i], v) == 0real);
                lemma_dot_concat(a.rows[i], b.rows[i], u, z);
                lemma_dot_zero(b.rows[i], c);
            }
            assert(av =~= vzeros_s::<real>(n));
            assert(u == vzeros_s::<real>(n));
            assert(u[h] == 1real);
        }
    }
}

/// Elimination solves every system whose matrix maps only zero to zero.
pub proof fn law_jordan_solve_exists(a: Mat<real>, b: Mat<real>)
    requires
        a.shaped(a.nrows(), a.nrows()),
        b.shaped(a.nrows(), b.ncols()),
        is_regular(a),
    ensures
        jordan_solve_s(a, b) is Some,
{
    lemma_jordan_exists(a, b, a.nrows());
}

} // verus!
