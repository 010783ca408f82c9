//! Dense factorisations written out over any scalar: Cholesky by rows, and
//! Gauss-Jordan elimination for linear systems and null spaces. They are the
//! kernels of scalars that have no numerical library behind them.

use vstd::prelude::*;

use crate::dense::{
    deep, norm_sq, norm_sq_s, opt_mat, slice, slice_s, stack_vec, tabulate, vcopy, vover, vover_s,
    vscale, vscale_s, vsub, vsub_s, vzeros, vzeros_s, Mat, Matrix,
};
use crate::scalar::{lit_s, Arith, Scalar};
use crate::triangular::{forward, forward_s};

verus! {

/// The first `k` rows of the Cholesky factor of `a`, row `i` with `i + 1`
/// entries. Nothing where a pivot is not positive.
pub open spec fn chol_upto_s<T: Arith>(a: Mat<T>, k: nat) -> Option<Seq<Seq<T>>>
    decreases k,
{
    if k == 0 {
        Some(Seq::empty())
    } else {
        match chol_upto_s(a, (k - 1) as nat) {
            None => None,
            Some(l) => {
                let w = forward_s(l, slice_s(a.rows[k - 1], 0, (k - 1) as nat));
                let d = a.at(k - 1, k - 1).sub_s(norm_sq_s(w));
                if T::zero_s().lt_s(d) {
                    Some(l.push(w.push(d.sqrt_s())))
                } else {
                    None
                }
            },
        }
    }
}

/// Row `i` filled up with zeros to `n` entries.
pub open spec fn padded_s<T: Arith>(row: Seq<T>, n: nat) -> Seq<T> {
    row + vzeros_s((n - row.len()) as nat)
}

/// The Cholesky factor of `a`.
pub open spec fn chol_factor_s<T: Arith>(a: Mat<T>) -> Option<Mat<T>> {
    let n = a.nrows();
    match chol_upto_s(a, n) {
        None => None,
        Some(l) => Some(
            Mat { cols: n, rows: Seq::new(n, |i: int| padded_s(l[i], n)) },
        ),
    }
}

pub proof fn lemma_chol_none<T: Arith>(a: Mat<T>, k: nat, n: nat)
    requires
        k <= n,
        chol_upto_s(a, k) is None,
    ensures
        chol_upto_s(a, n) is None,
    decreases n,
{
    if k < n {
        lemma_chol_none(a, k, (n - 1) as nat);
    }
}

/// The Cholesky factor of `a`, or `None` where a pivot is not positive.
pub fn chol_factor<S: Scalar>(a: &Matrix<S>) -> (r: Option<Matrix<S>>)
    requires
        a@.shaped(a@.nrows(), a@.nrows()),
    ensures
        opt_mat(r) == chol_factor_s(a@),
        r matches Some(l) ==> l@.shaped(a@.nrows(), a@.nrows()),
{
    let n = a.nrows();
    let mut l: Vec<Vec<S>> = Vec::new();
    assert(deep(l) =~= Seq::<Seq<S>>::empty());
    let mut k: usize = 0;
    while k < n
        invariant
            n == a@.nrows(),
            a@.shaped(n as nat, n as nat),
            k <= n,
            l@.len() == k,
            chol_upto_s(a@, k as nat) == Some(deep(l)),
            forall|i: int| 0 <= i < k ==> (#[trigger] deep(l)[i]).len() == i + 1,
        decreases n - k,
    {
        assert(deep(l).len() == k);
        let head = slice(a.row_ref(k), 0, k);
        let mut w = forward(&l, &head);
        let d = a.at(k, k).minus(norm_sq(&w));
        if !S::zero().less_than(d) {
            proof {
                lemma_chol_none(a@, (k + 1) as nat, n as nat);
            }
            return None;
        }
        w.push(d.root());
        let ghost l0 = deep(l);
        l.push(w);
        assert(deep(l) =~= l0.push(w@));
        k += 1;
    }
    let rows = tabulate(
        n,
        |i: usize| -> (row: Vec<S>)
            requires
                i < n,
                n == l@.len(),
                deep(l)[i as int].len() == i + 1,
            ensures
                row@ == padded_s(deep(l)[i as int], n as nat)
            {
                assert(l@[i as int]@ == deep(l)[i as int]);
                stack_vec(&l[i], &vzeros(n - l[i].len()))
            },
    );
    let r = Matrix::from_rows(n, rows);
    assert(r@.rows =~= Seq::new(n as nat, |i: int| padded_s(deep(l)[i], n as nat)));
    Some(r)
}

/// The row of `k .. i` with the largest entry in column `col`.
pub open spec fn pivot_s<T: Arith>(m: Seq<Seq<T>>, k: int, col: int, i: int) -> int
    decreases i,
{
    if i <= k + 1 || i <= 0 {
        k
    } else {
        let b = pivot_s(m, k, col, i - 1);
        if m[b][col].abs_s().lt_s(m[i - 1][col].abs_s()) {
            i - 1
        } else {
            b
        }
    }
}

pub proof fn lemma_pivot_range<T: Arith>(m: Seq<Seq<T>>, k: int, col: int, i: int)
    requires
        0 <= k < i,
    ensures
        k <= pivot_s(m, k, col, i) < i,
    decreases i,
{
    if i > k + 1 {
        lemma_pivot_range(m, k, col, i - 1);
    }
}

/// Rows `a` and `b` exchanged.
pub open spec fn swapped_s<T>(m: Seq<Seq<T>>, a: int, b: int) -> Seq<Seq<T>> {
    m.update(a, m[b]).update(b, m[a])
}

/// Column `col` brought to the unit vector of row `k`, if some row from `k` on
/// has an entry above `tol` there.
pub open spec fn reduce_s<T: Arith>(m: Seq<Seq<T>>, k: int, col: int, tol: T) -> Option<
    Seq<Seq<T>>,
> {
    let p = pivot_s(m, k, col, m.len() as int);
    if tol.lt_s(m[p][col].abs_s()) {
        let e = swapped_s(m, k, p);
        let unit = vover_s(e[k], e[k][col]);
        Some(
            Seq::new(
                m.len(),
                |i: int|
                    if i == k {
                        unit
                    } else {
                        vsub_s(e[i], vscale_s(e[i][col], unit))
                    },
            ),
        )
    } else {
        None
    }
}

/// All rows have `w` entries.
pub open spec fn rows_wide<T>(m: Seq<Seq<T>>, w: nat) -> bool {
    forall|i: int| 0 <= i < m.len() ==> (#[trigger] m[i]).len() == w
}

fn pivot<S: Scalar>(m: &Vec<Vec<S>>, k: usize, col: usize, Ghost(w): Ghost<nat>) -> (p: usize)
    requires
        k < m@.len(),
        col < w,
        rows_wide(deep(*m), w),
    ensures
        p == pivot_s(deep(*m), k as int, col as int, m@.len() as int),
        k <= p < m@.len(),
{
    let n = m.len();
    let mut b = k;
    let mut i: usize = k + 1;
    assert(pivot_s(deep(*m), k as int, col as int, k + 1) == k);
    while i < n
        invariant
            n == m@.len(),
            k < i <= n,
            col < w,
            rows_wide(deep(*m), w),
            k <= b < i,
            b == pivot_s(deep(*m), k as int, col as int, i as int),
        decreases n - i,
    {
        assert(m@[b as int]@ == deep(*m)[b as int]);
        assert(m@[i as int]@ == deep(*m)[i as int]);
        if m[b][col].magnitude().less_than(m[i][col].magnitude()) {
            b = i;
        }
        i += 1;
    }
    b
}

fn reduce<S: Scalar>(m: &Vec<Vec<S>>, k: usize, col: usize, tol: S, Ghost(w): Ghost<nat>) -> (r:
    Option<Vec<Vec<S>>>)
    requires
        k < m@.len(),
        col < w,
        rows_wide(deep(*m), w),
    ensures
        match r {
            Some(e) => reduce_s(deep(*m), k as int, col as int, tol) == Some(deep(e)) && rows_wide(
                deep(e),
                w,
            ) && e@.len() == m@.len(),
            None => reduce_s(deep(*m), k as int, col as int, tol) is None,
        },
{
    let ghost mv = deep(*m);
    let p = pivot(m, k, col, Ghost(w));
    assert(m@[p as int]@ == mv[p as int]);
    let lead = m[p][col];
    if !tol.less_than(lead.magnitude()) {
        return None;
    }
    let ghost e = swapped_s(mv, k as int, p as int);
    assert(e[k as int] == mv[p as int]);
    let unit = vover(&m[p], lead);
    let n = m.len();
    let r = tabulate(
        n,
        |i: usize| -> (row: Vec<S>)
            requires
                n == m@.len(),
                mv == deep(*m),
                e == swapped_s(mv, k as int, p as int),
                rows_wide(mv, w),
                i < n,
                k < n,
                p < n,
                col < w,
                unit@.len() == w,
            ensures
                row@ == (if i == k {
                    unit@
                } else {
                    vsub_s(e[i as int], vscale_s(e[i as int][col as int], unit@))
                })
            {
                if i == k {
                    vcopy(&unit)
                } else {
                    let src = if i == p {
                        k
                    } else {
                        i
                    };
                    assert(m@[src as int]@ == mv[src as int]);
                    assert(e[i as int] == mv[src as int]);
                    let row = &m[src];
                    vsub(row, &vscale(row[col], &unit))
                }
            },
    );
    proof {
        let goal = reduce_s(mv, k as int, col as int, tol)->0;
        assert forall|i: int| 0 <= i < n implies deep(r)[i] == goal[i] by {
            assert(r@[i]@ == deep(r)[i]);
        }
        assert(deep(r) =~= goal);
    }
    Some(r)
}

/// The augmented rows after the first `k` columns have been reduced.
pub open spec fn jordan_upto_s<T: Arith>(m: Seq<Seq<T>>, k: nat) -> Option<Seq<Seq<T>>>
    decreases k,
{
    if k == 0 {
        Some(m)
    } else {
        match jordan_upto_s(m, (k - 1) as nat) {
            None => None,
            Some(e) => reduce_s(e, k - 1, k - 1, T::zero_s()),
        }
    }
}

proof fn lemma_jordan_none<T: Arith>(m: Seq<Seq<T>>, k: nat, n: nat)
    requires
        k <= n,
        jordan_upto_s(m, k) is None,
    ensures
        jordan_upto_s(m, n) is None,
    decreases n,
{
    if k < n {
        lemma_jordan_none(m, k, (n - 1) as nat);
    }
}

/// `[a b]` by rows.
pub open spec fn augmented_s<T>(a: Mat<T>, b: Mat<T>) -> Seq<Seq<T>> {
    Seq::new(a.nrows(), |i: int| a.rows[i] + b.rows[i])
}

/// The solution of `a x = b` by elimination with row pivoting.
pub open spec fn jordan_solve_s<T: Arith>(a: Mat<T>, b: Mat<T>) -> Option<Mat<T>> {
    let n = a.nrows();
    match jordan_upto_s(augmented_s(a, b), n) {
        None => None,
        Some(e) => Some(
            Mat {
                cols: b.cols,
                rows: Seq::new(n, |i: int| slice_s(e[i], n, b.cols)),
            },
        ),
    }
}

/// Solves `a x = b`, or answers `None` where a pivot vanishes.
pub fn jordan_solve<S: Scalar>(a: &Matrix<S>, b: &Matrix<S>) -> (r: Option<Matrix<S>>)
    requires
        a@.shaped(a@.nrows(), a@.nrows()),
        b@.shaped(a@.nrows(), b@.ncols()),
    ensures
        opt_mat(r) == jordan_solve_s(a@, b@),
        r matches Some(x) ==> x@.shaped(a@.nrows(), b@.ncols()),
{
    let n = a.nrows();
    let c = b.ncols();
    let ghost w = (n + c) as nat;
    let mut m = tabulate(
        n,
        |i: usize| -> (row: Vec<S>)
            requires
                i < a@.nrows(),
                i < b@.nrows(),
            ensures
                row@ == a@.rows[i as int] + b@.rows[i as int]
            { stack_vec(a.row_ref(i), b.row_ref(i)) },
    );
    let ghost m0 = augmented_s(a@, b@);
    assert(deep(m) =~= m0);
    let mut k: usize = 0;
    while k < n
        invariant
            k <= n,
            m@.len() == n,
            w == n + c,
            rows_wide(deep(m), w),
            n == a@.nrows(),
            m0 == augmented_s(a@, b@),
            jordan_upto_s(m0, k as nat) == Some(deep(m)),
        decreases n - k,
    {
        match reduce(&m, k, k, S::zero(), Ghost(w)) {
            Some(e) => {
                m = e;
            },
            None => {
                proof {
                    lemma_jordan_none(m0, (k + 1) as nat, n as nat);
                }
                return None;
            },
        }
        k += 1;
    }
    let rows = tabulate(
        n,
        |i: usize| -> (row: Vec<S>)
            requires
                i < n,
                n == m@.len(),
                deep(m)[i as int].len() == n + c,
            ensures
                row@ == slice_s(deep(m)[i as int], n as nat, c as nat)
            {
                assert(m@[i as int]@ == deep(m)[i as int]);
                slice(&m[i], n, c)
            },
    );
    let r = Matrix::from_rows(c, rows);
    assert(r@.rows =~= Seq::new(n as nat, |i: int| slice_s(deep(m)[i], n as nat, c as nat)));
    Some(r)
}

/// A matrix in reduced row echelon form and its pivot columns.
#[verifier::ext_equal]
pub struct Echelon<T> {
    pub m: Seq<Seq<T>>,
    pub pivots: Seq<usize>,
}

/// The echelon form after the first `k` columns. Entries of at most `1e-6`
/// count as zero.
pub open spec fn echelon_upto_s<T: Arith>(a: Mat<T>, k: nat) -> Echelon<T>
    decreases k,
{
    if k == 0 {
        Echelon { m: a.rows, pivots: Seq::empty() }
    } else {
        let e = echelon_upto_s(a, (k - 1) as nat);
        if e.pivots.len() < e.m.len() {
            match reduce_s(e.m, e.pivots.len() as int, k - 1, lit_s::<T>(1, -6)) {
                Some(m) => Echelon { m, pivots: e.pivots.push((k - 1) as usize) },
                None => e,
            }
        } else {
            e
        }
    }
}

/// The columns among the first `n` that are not pivots.
pub open spec fn free_s(pivots: Seq<usize>, n: nat) -> Seq<usize>
    decreases n,
{
    if n == 0 {
        Seq::empty()
    } else {
        let head = free_s(pivots, (n - 1) as nat);
        if pivots.contains((n - 1) as usize) {
            head
        } else {
            head.push((n - 1) as usize)
        }
    }
}

/// The place of `v` among the first `k` pivots, the last if there are several.
pub open spec fn place_of_s(pivots: Seq<usize>, v: usize, k: nat) -> Option<int>
    decreases k,
{
    if k == 0 {
        None
    } else if pivots[k - 1] == v {
        Some(k - 1)
    } else {
        place_of_s(pivots, v, (k - 1) as nat)
    }
}

/// Entry `i` of the basis vector of the free column `f`.
pub open spec fn basis_entry_s<T: Arith>(e: Echelon<T>, i: usize, f: usize) -> T {
    match place_of_s(e.pivots, i, e.pivots.len()) {
        Some(r) => e.m[r][f as int].neg_s(),
        None => if i == f {
            T::one_s()
        } else {
            T::zero_s()
        },
    }
}

/// One basis vector per free column.
pub open spec fn kernel_s<T: Arith>(a: Mat<T>) -> Mat<T> {
    let n = a.ncols();
    let e = echelon_upto_s(a, n);
    let free = free_s(e.pivots, n);
    Mat::build(n, free.len(), |i: int, j: int| basis_entry_s(e, i as usize, free[j]))
}

fn place_of(pivots: &Vec<usize>, v: usize) -> (r: Option<usize>)
    ensures
        match r {
            Some(k) => place_of_s(pivots@, v, pivots@.len()) == Some(k as int) && k
                < pivots@.len(),
            None => place_of_s(pivots@, v, pivots@.len()) is None && !pivots@.contains(v),
        },
{
    let mut k: usize = pivots.len();
    while k > 0
        invariant
            k <= pivots@.len(),
            place_of_s(pivots@, v, k as nat) == place_of_s(pivots@, v, pivots@.len()),
            forall|j: int| k <= j < pivots@.len() ==> #[trigger] pivots@[j] != v,
        decreases k,
    {
        k -= 1;
        if pivots[k] == v {
            return Some(k);
        }
    }
    None
}

fn free<S: Scalar>(pivots: &Vec<usize>, n: usize) -> (r: Vec<usize>)
    ensures
        r@ == free_s(pivots@, n as nat),
        forall|j: int| 0 <= j < r@.len() ==> #[trigger] r@[j] < n,
{
    let mut r: Vec<usize> = Vec::new();
    let mut i: usize = 0;
    while i < n
        invariant
            i <= n,
            r@ == free_s(pivots@, i as nat),
            forall|j: int| 0 <= j < r@.len() ==> #[trigger] r@[j] < n,
        decreases n - i,
    {
        match place_of(pivots, i) {
            Some(k) => {
                proof {
                    lemma_place(pivots@, i, pivots@.len());
                }
            },
            None => {
                r.push(i);
            },
        }
        i += 1;
    }
    r
}

proof fn lemma_place(pivots: Seq<usize>, v: usize, k: nat)
    requires
        k <= pivots.len(),
    ensures
        place_of_s(pivots, v, k) is Some ==> pivots.contains(v),
    decreases k,
{
    if k > 0 {
        lemma_place(pivots, v, (k - 1) as nat);
    }
}

/// A basis of the null space of `a`, one column per free column of its echelon
/// form.
pub fn kernel<S: Scalar>(a: &Matrix<S>) -> (r: Matrix<S>)
    requires
        a@.wf(),
    ensures
        r@ == kernel_s(a@),
        r@.shaped(a@.ncols(), r@.ncols()),
{
    let n = a.ncols();
    let rows = a.nrows();
    let tol = S::dec(1, -6);
    let mut m = tabulate(
        rows,
        |i: usize| -> (row: Vec<S>)
            requires
                i < a@.nrows(),
            ensures
                row@ == a@.rows[i as int]
            { a.row(i) },
    );
    assert(deep(m) =~= a@.rows);
    let mut pivots: Vec<usize> = Vec::new();
    let mut k: usize = 0;
    while k < n
        invariant
            n == a@.ncols(),
            k <= n,
            m@.len() == rows,
            pivots@.len() <= rows,
            rows_wide(deep(m), n as nat),
            tol == lit_s::<S>(1, -6),
            (Echelon { m: deep(m), pivots: pivots@ }) == echelon_upto_s(a@, k as nat),
        decreases n - k,
    {
        assert(deep(m).len() == rows);
        if pivots.len() < m.len() {
            if let Some(e) = reduce(&m, pivots.len(), k, tol, Ghost(n as nat)) {
                m = e;
                pivots.push(k);
            }
        }
        k += 1;
    }
    let cols = free::<S>(&pivots, n);
    let ghost e = Echelon { m: deep(m), pivots: pivots@ };
    let w = cols.len();
    let r = Matrix::tabulate(
        n,
        w,
        |i: usize, j: usize| -> (v: S)
            requires
                e == (Echelon { m: deep(m), pivots: pivots@ }),
                w == cols@.len(),
                j < w,
                cols@[j as int] < n,
                rows_wide(deep(m), n as nat),
                pivots@.len() <= m@.len(),
            ensures
                v == basis_entry_s(e, i, cols@[j as int])
            {
                let f = cols[j];
                match place_of(&pivots, i) {
                    Some(row) => {
                        assert(m@[row as int]@ == deep(m)[row as int]);
                        m[row][f].negated()
                    },
                    None => {
                        if i == f {
                            S::one()
                        } else {
                            S::zero()
                        }
                    },
                }
            },
    );
    proof {
        crate::dense::lemma_mat_eq(r@, kernel_s(a@));
    }
    r
}

} // verus!
