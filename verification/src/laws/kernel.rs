//! The null-space basis by elimination, in exact arithmetic.

use vstd::prelude::*;

use crate::dense::{
    col_s, dot_s, dot_upto_s, lemma_mat_eq, mmul_s, mvec_s, mzeros_s, vover_s, vscale_s, vzeros_s,
    Mat,
};
use crate::elimination::{
    basis_entry_s, echelon_upto_s, free_s, kernel_s, pivot_s, place_of_s, reduce_s, rows_wide,
    swapped_s,
};
use crate::exact::{
    lemma_dot_add, lemma_dot_agree, lemma_dot_scale, lemma_dot_single, lemma_dot_zero,
    lemma_mmul_col,
};
use crate::kernels::is_regular;
use crate::laws::elimination::{annihilate, lemma_pivot_range};
use crate::laws::factor::lemma_lit_pos;
use crate::laws::freedom::reaches;
use crate::laws::rotation::lemma_over;
use crate::scalar::{lit_s, Arith};

verus! {

/// An elimination step keeps what the rows annihilate.
proof fn lemma_reduce_same(
    m: Seq<Seq<real>>,
    k: int,
    col: int,
    tol: real,
    w: nat,
    r: Seq<Seq<real>>,
    u: Seq<real>,
)
    requires
        rows_wide(m, w),
        0 <= k < m.len(),
        0 <= col < w,
        tol >= 0real,
        reduce_s(m, k, col, tol) == Some(r),
        u.len() == w,
    ensures
        annihilate(m, u) <==> annihilate(r, u),
{
    let p = pivot_s(m, k, col, m.len() as int);
    lemma_pivot_range(m, k, col, m.len() as int);
    let e = swapped_s(m, k, p);
    let piv = e[k][col];
    let unit = vover_s(e[k], piv);
    assert(r[k] == unit);
    assert(e[k] =~= vscale_s(piv, unit)) by {
        assert forall|j: int| 0 <= j < w implies e[k][j] == piv * unit[j] by {
            lemma_over(e[k][j], piv);
        }
    }
    lemma_dot_scale(u, piv, unit);
    let s = dot_s(unit, u);
    assert(piv * 0real == 0real) by (nonlinear_arith);
    assert forall|i: int| 0 <= i < e.len() && i != k implies dot_s(#[trigger] r[i], u) == dot_s(
        e[i],
        u,
    ) - e[i][col] * s by {
        let f = e[i][col];
        lemma_dot_add(u, e[i], vscale_s(f, unit));
        lemma_dot_scale(u, f, unit);
    }
    if annihilate(r, u) {
        assert(dot_s(r[k], u) == 0real);
        assert forall|i: int| 0 <= i < e.len() implies dot_s(#[trigger] e[i], u) == 0real by {
            if i != k {
                let f = e[i][col];
                assert(dot_s(r[i], u) == 0real);
                assert(f * 0real == 0real) by (nonlinear_arith);
            }
        }
        assert forall|i: int| 0 <= i < m.len() implies dot_s(#[trigger] m[i], u) == 0real by {
            let j = if i == k {
                p
            } else if i == p {
                k
            } else {
                i
            };
            assert(e[j] == m[i]);
        }
    }
    if annihilate(m, u) {
        assert forall|i: int| 0 <= i < e.len() implies dot_s(#[trigger] e[i], u) == 0real by {
            let j = if i == k {
                p
            } else if i == p {
                k
            } else {
                i
            };
            assert(dot_s(m[j], u) == 0real);
        }
        assert(dot_s(e[k], u) == piv * s);
        assert(s == 0real) by (nonlinear_arith)
            requires
                piv * s == 0real,
                piv != 0real,
        ;
        assert forall|i: int| 0 <= i < r.len() implies dot_s(#[trigger] r[i], u) == 0real by {
            if i != k {
                let f = e[i][col];
                assert(dot_s(e[i], u) == 0real);
                assert(f * 0real == 0real) by (nonlinear_arith);
            }
        }
    }
}

/// The pivot columns are unit vectors.
pub open spec fn unit_columns(m: Seq<Seq<real>>, pivots: Seq<usize>) -> bool {
    forall|i: int, s: int|
        0 <= i < m.len() && 0 <= s < pivots.len() ==> #[trigger] m[i][#[trigger] pivots[s] as int]
            == (if i == s {
            1real
        } else {
            0real
        })
}

proof fn lemma_reduce_columns(
    m: Seq<Seq<real>>,
    pivots: Seq<usize>,
    col: int,
    tol: real,
    w: nat,
    r: Seq<Seq<real>>,
)
    requires
        rows_wide(m, w),
        pivots.len() < m.len(),
        0 <= col < w,
        w <= usize::MAX,
        tol >= 0real,
        forall|s: int| 0 <= s < pivots.len() ==> #[trigger] pivots[s] < col,
        unit_columns(m, pivots),
        reduce_s(m, pivots.len() as int, col, tol) == Some(r),
    ensures
        rows_wide(r, w),
        r.len() == m.len(),
        unit_columns(r, pivots.push(col as usize)),
{
    let k = pivots.len() as int;
    let p = pivot_s(m, k, col, m.len() as int);
    lemma_pivot_range(m, k, col, m.len() as int);
    let e = swapped_s(m, k, p);
    let piv = e[k][col];
    let unit = vover_s(e[k], piv);
    let all = pivots.push(col as usize);
    assert forall|i: int, s: int|
        0 <= i < r.len() && 0 <= s < all.len() implies #[trigger] r[i][#[trigger] all[s] as int]
        == (if i == s {
        1real
    } else {
        0real
    }) by {
        let a = e[i][col];
        if s < k {
            let j = pivots[s] as int;
            assert(m[p][pivots[s] as int] == 0real);
            assert(m[k][pivots[s] as int] == 0real);
            assert(m[i][pivots[s] as int] == (if i == s {
                1real
            } else {
                0real
            }));
            lemma_over(0real, piv);
            let q = 0real / piv;
            assert(q == 0real) by (nonlinear_arith)
                requires
                    piv * q == 0real,
                    piv != 0real,
            ;
            assert(unit[j] == 0real);
            assert(a * 0real == 0real) by (nonlinear_arith);
        } else {
            lemma_over(piv, piv);
            let q = piv / piv;
            assert(q == 1real) by (nonlinear_arith)
                requires
                    piv * q == piv,
                    piv != 0real,
            ;
            assert(unit[col] == 1real);
            assert(a * 1real == a) by (nonlinear_arith);
        }
    }
    assert forall|i: int| 0 <= i < r.len() implies (#[trigger] r[i]).len() == w by {}
}

proof fn lemma_echelon(a: Mat<real>, k: nat)
    requires
        a.wf(),
        k <= a.ncols(),
        a.ncols() <= usize::MAX,
    ensures
        ({
            let e = echelon_upto_s(a, k);
            &&& rows_wide(e.m, a.ncols())
            &&& e.m.len() == a.nrows()
            &&& e.pivots.len() <= e.m.len()
            &&& unit_columns(e.m, e.pivots)
            &&& forall|s: int| 0 <= s < e.pivots.len() ==> #[trigger] e.pivots[s] < k
            &&& forall|s: int, t: int|
                0 <= s < t < e.pivots.len() ==> #[trigger] e.pivots[s] < #[trigger] e.pivots[t]
            &&& forall|u: Seq<real>|
                u.len() == a.ncols() ==> (#[trigger] annihilate(e.m, u) <==> annihilate(a.rows, u))
        }),
    decreases k,
{
    if k > 0 {
        lemma_echelon(a, (k - 1) as nat);
        lemma_lit_pos(1, -6);
        let h = echelon_upto_s(a, (k - 1) as nat);
        let e = echelon_upto_s(a, k);
        if h.pivots.len() < h.m.len() {
            match reduce_s(h.m, h.pivots.len() as int, k - 1, lit_s::<real>(1, -6)) {
                Some(m) => {
                    lemma_reduce_columns(
                        h.m,
                        h.pivots,
                        k - 1,
                        lit_s::<real>(1, -6),
                        a.ncols(),
                        m,
                    );
                    assert forall|u: Seq<real>| u.len() == a.ncols() implies (#[trigger] annihilate(
                        e.m,
                        u,
                    ) <==> annihilate(a.rows, u)) by {
                        lemma_reduce_same(
                            h.m,
                            h.pivots.len() as int,
                            k - 1,
                            lit_s::<real>(1, -6),
                            a.ncols(),
                            m,
                            u,
                        );
                    }
                },
                None => {},
            }
        }
    }
}

/// The free columns are those that are no pivots, in order.
proof fn lemma_free(pivots: Seq<usize>, n: nat)
    requires
        n <= usize::MAX,
    ensures
        ({
            let f = free_s(pivots, n);
            &&& f.len() <= n
            &&& forall|j: int| 0 <= j < f.len() ==> #[trigger] f[j] < n && !pivots.contains(f[j])
            &&& forall|i: int, j: int| 0 <= i < j < f.len() ==> #[trigger] f[i] < #[trigger] f[j]
            &&& forall|i: usize|
                i < n && !#[trigger] pivots.contains(i) ==> exists|j: int|
                    0 <= j < f.len() && #[trigger] f[j] == i
        }),
    decreases n,
{
    if n > 0 {
        lemma_free(pivots, (n - 1) as nat);
        let h = free_s(pivots, (n - 1) as nat);
        let f = free_s(pivots, n);
        assert forall|i: usize| i < n && !#[trigger] pivots.contains(i) implies exists|j: int|
            0 <= j < f.len() && #[trigger] f[j] == i by {
            if i < n - 1 {
                let j = choose|j: int| 0 <= j < h.len() && #[trigger] h[j] == i;
                assert(f[j] == i);
            } else {
                assert(f[h.len() as int] == i);
            }
        }
    }
}

proof fn lemma_place(pivots: Seq<usize>, v: usize, k: nat)
    requires
        k <= pivots.len(),
    ensures
        match place_of_s(pivots, v, k) {
            Some(r) => 0 <= r < k && pivots[r] == v,
            None => forall|s: int| 0 <= s < k ==> #[trigger] pivots[s] != v,
        },
    decreases k,
{
    if k > 0 {
        lemma_place(pivots, v, (k - 1) as nat);
    }
}

/// The entries of `v` at the places `at`.
pub open spec fn picked_s(v: Seq<real>, at: Seq<usize>) -> Seq<real> {
    Seq::new(at.len(), |j: int| v[at[j] as int])
}

/// A row whose pivot columns are those of a unit vector: the product with `v` is
/// the entry at its own pivot and the product over the free columns.
proof fn lemma_split(row: Seq<real>, v: Seq<real>, pivots: Seq<usize>, r: int, k: nat)
    requires
        k <= row.len(),
        row.len() == v.len(),
        row.len() <= usize::MAX,
        0 <= r < pivots.len(),
        forall|s: int, t: int|
            0 <= s < t < pivots.len() ==> #[trigger] pivots[s] < #[trigger] pivots[t],
        forall|s: int|
            0 <= s < pivots.len() ==> #[trigger] pivots[s] < row.len() && row[pivots[s] as int] == (
            if s == r {
                1real
            } else {
                0real
            }),
    ensures
        ({
            let f = free_s(pivots, k);
            dot_upto_s(row, v, k) == (if pivots[r] < k {
                v[pivots[r] as int]
            } else {
                0real
            }) + dot_upto_s(picked_s(row, f), picked_s(v, f), f.len())
        }),
    decreases k,
{
    if k > 0 {
        lemma_split(row, v, pivots, r, (k - 1) as nat);
        let c = (k - 1) as usize;
        let (h, f) = (free_s(pivots, (k - 1) as nat), free_s(pivots, k));
        let x = v[c as int];
        if pivots.contains(c) {
            let s = choose|s: int| 0 <= s < pivots.len() && pivots[s] == c;
            assert(row[pivots[s] as int] == (if s == r {
                1real
            } else {
                0real
            }));
            assert(1real * x == x) by (nonlinear_arith);
            assert(0real * x == 0real) by (nonlinear_arith);
            if s != r {
                if s < r {
                    assert(pivots[s] < pivots[r]);
                } else {
                    assert(pivots[r] < pivots[s]);
                }
            }
        } else {
            assert(pivots[r] != c) by {
                assert(pivots.contains(pivots[r]));
            }
            lemma_dot_agree(
                picked_s(row, f),
                picked_s(v, f),
                picked_s(row, h),
                picked_s(v, h),
                h.len(),
            );
            assert(f[h.len() as int] == c);
        }
    }
}

/// Row `i` of the basis, where `i` is a free column.
proof fn lemma_free_row(a: Mat<real>, j: int, w: Seq<real>)
    requires
        a.wf(),
        a.ncols() <= usize::MAX,
        w.len() == kernel_s(a).ncols(),
        0 <= j < w.len(),
    ensures
        ({
            let f = free_s(echelon_upto_s(a, a.ncols()).pivots, a.ncols());
            mvec_s(kernel_s(a), w)[f[j] as int] == w[j]
        }),
{
    let n = a.ncols();
    let e = echelon_upto_s(a, n);
    let f = free_s(e.pivots, n);
    lemma_free(e.pivots, n);
    let i = f[j];
    assert(i < n && !e.pivots.contains(f[j]));
    lemma_place(e.pivots, i, e.pivots.len());
    if let Some(r) = place_of_s(e.pivots, i, e.pivots.len()) {
        assert(e.pivots.contains(i));
    }
    let row = kernel_s(a).rows[i as int];
    assert forall|t: int| 0 <= t < w.len() && t != j implies #[trigger] row[t] == 0real by {
        if t < j {
            assert(f[t] < f[j]);
        } else {
            assert(f[j] < f[t]);
        }
        assert(row[t] == basis_entry_s(e, i, f[t]));
    }
    assert(row[j] == basis_entry_s(e, i, f[j]));
    lemma_dot_single(row, w, j, w.len());
    let x = w[j];
    assert(1real * x == x) by (nonlinear_arith);
}

/// The basis by elimination is complete, and its columns are independent: every
/// vector that the matrix maps to zero is a combination of the columns, and only
/// zero coefficients combine them to zero.
pub proof fn law_kernel_complete(a: Mat<real>, v: Seq<real>)
    requires
        a.wf(),
        a.ncols() <= usize::MAX,
        v.len() == a.ncols(),
    ensures
        mvec_s(a, v) == vzeros_s::<real>(a.nrows()) ==> reaches(kernel_s(a), v),
        is_regular(kernel_s(a)),
{
    let n = a.ncols();
    let z = kernel_s(a);
    let e = echelon_upto_s(a, n);
    let f = free_s(e.pivots, n);
    lemma_echelon(a, n);
    lemma_free(e.pivots, n);
    assert forall|w: Seq<real>|
        w.len() == z.ncols() && #[trigger] mvec_s(z, w) == vzeros_s::<real>(
            z.nrows(),
        ) implies w == vzeros_s::<real>(z.ncols()) by {
        assert forall|j: int| 0 <= j < w.len() implies w[j] == 0real by {
            lemma_free_row(a, j, w);
            assert(f[j] < n);
            assert(mvec_s(z, w)[f[j] as int] == vzeros_s::<real>(z.nrows())[f[j] as int]);
        }
        assert(w =~= vzeros_s::<real>(z.ncols()));
    }
    if mvec_s(a, v) == vzeros_s::<real>(a.nrows()) {
        assert(annihilate(a.rows, v)) by {
            assert forall|i: int| 0 <= i < a.rows.len() implies dot_s(#[trigger] a.rows[i], v)
                == 0real by {
                assert(mvec_s(a, v)[i] == vzeros_s::<real>(a.nrows())[i]);
            }
        }
        assert(annihilate(e.m, v));
        let w = picked_s(v, f);
        let y = mvec_s(z, w);
        assert forall|i: int| 0 <= i < n implies y[i] == v[i] by {
            if e.pivots.contains(i as usize) {
                lemma_place(e.pivots, i as usize, e.pivots.len());
                let r = place_of_s(e.pivots, i as usize, e.pivots.len())->Some_0;
                lemma_pivot_row(a, r, v);
                assert(dot_s(e.m[r], v) == 0real);
                let row = z.rows[i];
                let m = picked_s(e.m[r], f);
                assert forall|t: int| 0 <= t < f.len() implies row[t] == -m[t] by {
                    assert(row[t] == basis_entry_s(e, i as usize, f[t]));
                }
                assert(row =~= crate::dense::vneg_s(m));
                lemma_dot_scale(w, 0real, m);
            } else {
                let j = choose|j: int| 0 <= j < f.len() && #[trigger] f[j] == i as usize;
                lemma_free_row(a, j, w);
            }
        }
        assert(y =~= v);
    }
}

/// The product of pivot row `r` with `v`.
proof fn lemma_pivot_row(a: Mat<real>, r: int, v: Seq<real>)
    requires
        a.wf(),
        a.ncols() <= usize::MAX,
        v.len() == a.ncols(),
        0 <= r < echelon_upto_s(a, a.ncols()).pivots.len(),
    ensures
        ({
            let e = echelon_upto_s(a, a.ncols());
            let f = free_s(e.pivots, a.ncols());
            dot_s(e.m[r], v) == v[e.pivots[r] as int] + dot_s(picked_s(e.m[r], f), picked_s(v, f))
        }),
{
    let n = a.ncols();
    let e = echelon_upto_s(a, n);
    lemma_echelon(a, n);
    assert forall|s: int| 0 <= s < e.pivots.len() implies #[trigger] e.pivots[s] < n && e.m[r][
    e.pivots[s] as int] == (if s == r {
        1real
    } else {
        0real
    }) by {
        assert(e.m[r][e.pivots[s] as int] == (if r == s {
            1real
        } else {
            0real
        }));
    }
    lemma_split(e.m[r], v, e.pivots, r, n);
}

/// Where elimination leaves no row behind that is small but not zero, the matrix
/// maps every column of the basis to zero.
pub proof fn law_kernel_exact(a: Mat<real>)
    requires
        a.wf(),
        a.ncols() <= usize::MAX,
        ({
            let e = echelon_upto_s(a, a.ncols());
            forall|i: int|
                e.pivots.len() <= i < a.nrows() ==> #[trigger] e.m[i] == vzeros_s::<real>(a.ncols())
        }),
    ensures
        mmul_s(a, kernel_s(a)) == mzeros_s::<real>(a.nrows(), kernel_s(a).ncols()),
{
    let n = a.ncols();
    let z = kernel_s(a);
    let e = echelon_upto_s(a, n);
    let f = free_s(e.pivots, n);
    lemma_echelon(a, n);
    lemma_free(e.pivots, n);
    let p = mmul_s(a, z);
    assert forall|i: int, j: int| 0 <= i < p.nrows() && 0 <= j < p.ncols() implies #[trigger] p.at(
        i,
        j,
    ) == 0real by {
        let v = col_s(z, j);
        let unit = Seq::new(f.len(), |t: int| if t == j {
            1real
        } else {
            0real
        });
        assert forall|t: int| 0 <= t < f.len() implies picked_s(v, f)[t] == unit[t] by {
            let c = f[t];
            assert(c < n && !e.pivots.contains(f[t]));
            lemma_place(e.pivots, c, e.pivots.len());
            if let Some(r) = place_of_s(e.pivots, c, e.pivots.len()) {
                assert(e.pivots.contains(c));
            }
            assert(v[c as int] == basis_entry_s(e, c, f[j]));
            if t < j {
                assert(f[t] < f[j]);
            } else if j < t {
                assert(f[j] < f[t]);
            }
        }
        assert(picked_s(v, f) =~= unit);
        assert forall|r: int| 0 <= r < e.m.len() implies dot_s(#[trigger] e.m[r], v) == 0real by {
            if r < e.pivots.len() {
                lemma_pivot_row(a, r, v);
                let m = picked_s(e.m[r], f);
                crate::exact::lemma_dot_comm(m, unit);
                lemma_dot_single(unit, m, j, f.len());
                let x = m[j];
                assert(1real * x == x) by (nonlinear_arith);
                let c = e.pivots[r];
                lemma_place(e.pivots, c, e.pivots.len());
                let s = place_of_s(e.pivots, c, e.pivots.len())->Some_0;
                if s < r {
                    assert(e.pivots[s] < e.pivots[r]);
                } else if r < s {
                    assert(e.pivots[r] < e.pivots[s]);
                }
                assert(v[c as int] == basis_entry_s(e, c, f[j]));
            } else {
                lemma_dot_zero(v, n);
            }
        }
        assert(annihilate(e.m, v));
        assert(annihilate(a.rows, v));
        lemma_mmul_col(a, z, j);
        assert(dot_s(a.rows[i], v) == 0real);
        assert(col_s(p, j)[i] == p.at(i, j));
    }
    lemma_mat_eq(p, mzeros_s::<real>(a.nrows(), z.ncols()));
}

} // verus!
