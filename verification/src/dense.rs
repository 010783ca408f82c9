//! Dense vectors and matrices over a [`Scalar`].
//!
//! A vector is a `Vec` and its model the sequence of its entries. A matrix is
//! a [`Matrix`], stored by rows, and its model a [`Mat`]. Each operation is
//! stated entry by entry; sums run from the first term to the last, starting
//! at zero.

use vstd::prelude::*;

use crate::scalar::{Arith, Scalar};

verus! {

// ---------------------------------------------------------------- vectors
pub open spec fn vfill_s<T>(n: nat, v: T) -> Seq<T> {
    Seq::new(n, |i: int| v)
}

pub open spec fn vzeros_s<T: Arith>(n: nat) -> Seq<T> {
    vfill_s(n, T::zero_s())
}

pub open spec fn vadd_s<T: Arith>(a: Seq<T>, b: Seq<T>) -> Seq<T> {
    Seq::new(a.len(), |i: int| a[i].add_s(b[i]))
}

pub open spec fn vsub_s<T: Arith>(a: Seq<T>, b: Seq<T>) -> Seq<T> {
    Seq::new(a.len(), |i: int| a[i].sub_s(b[i]))
}

pub open spec fn vneg_s<T: Arith>(a: Seq<T>) -> Seq<T> {
    Seq::new(a.len(), |i: int| a[i].neg_s())
}

pub open spec fn vscale_s<T: Arith>(k: T, a: Seq<T>) -> Seq<T> {
    Seq::new(a.len(), |i: int| k.mul_s(a[i]))
}

/// The entry-by-entry product.
pub open spec fn vmul_s<T: Arith>(a: Seq<T>, b: Seq<T>) -> Seq<T> {
    Seq::new(a.len(), |i: int| a[i].mul_s(b[i]))
}

/// Every entry divided by `t`.
pub open spec fn vover_s<T: Arith>(a: Seq<T>, t: T) -> Seq<T> {
    Seq::new(a.len(), |i: int| a[i].div_s(t))
}

/// The sum of the first `n` products.
pub open spec fn dot_upto_s<T: Arith>(a: Seq<T>, b: Seq<T>, n: nat) -> T
    decreases n,
{
    if n == 0 {
        T::zero_s()
    } else {
        dot_upto_s(a, b, (n - 1) as nat).add_s(a[n - 1].mul_s(b[n - 1]))
    }
}

pub open spec fn dot_s<T: Arith>(a: Seq<T>, b: Seq<T>) -> T {
    dot_upto_s(a, b, a.len())
}

pub open spec fn norm_sq_s<T: Arith>(a: Seq<T>) -> T {
    dot_s(a, a)
}

/// The Euclidean norm.
pub open spec fn norm_s<T: Arith>(a: Seq<T>) -> T {
    norm_sq_s(a).sqrt_s()
}

pub open spec fn amax_upto_s<T: Arith>(a: Seq<T>, n: nat) -> T
    decreases n,
{
    if n == 0 {
        T::zero_s()
    } else {
        amax_upto_s(a, (n - 1) as nat).max_s(a[n - 1].abs_s())
    }
}

/// The largest magnitude of an entry, zero for an empty vector. Unordered
/// magnitudes are passed over where the scalar's maximum does so.
pub open spec fn amax_s<T: Arith>(a: Seq<T>) -> T {
    amax_upto_s(a, a.len())
}

pub open spec fn vmin_upto_s<T: Arith>(a: Seq<T>, n: nat) -> T
    decreases n,
{
    if n <= 1 {
        a[0]
    } else {
        vmin_upto_s(a, (n - 1) as nat).min_s(a[n - 1])
    }
}

/// The smallest entry of a vector that has one. Unordered entries are passed
/// over where the scalar's minimum does so.
pub open spec fn vmin_s<T: Arith>(a: Seq<T>) -> T {
    vmin_upto_s(a, a.len())
}

/// The largest magnitude among the first `n` entries, by a running comparison
/// from the first one on: a magnitude takes over unless it is at most the
/// largest so far, so that an unordered one is not passed over.
pub open spec fn peak_upto_s<T: Arith>(a: Seq<T>, n: nat) -> T
    decreases n,
{
    if n == 0 {
        T::zero_s()
    } else if n == 1 {
        a[0].abs_s()
    } else {
        let m = peak_upto_s(a, (n - 1) as nat);
        let b = a[n - 1].abs_s();
        if b.le_s(m) {
            m
        } else {
            b
        }
    }
}

/// The largest magnitude of an entry, zero for an empty vector.
pub open spec fn peak_s<T: Arith>(a: Seq<T>) -> T {
    peak_upto_s(a, a.len())
}

/// The smallest of the first `n` entries, by a running comparison: an entry
/// takes over unless the smallest so far is at most that entry, so that an
/// unordered one is not passed over.
pub open spec fn least_upto_s<T: Arith>(a: Seq<T>, n: nat) -> T
    decreases n,
{
    if n <= 1 {
        a[0]
    } else {
        let m = least_upto_s(a, (n - 1) as nat);
        if m.le_s(a[n - 1]) {
            m
        } else {
            a[n - 1]
        }
    }
}

/// The smallest entry of a vector that has one.
pub open spec fn least_s<T: Arith>(a: Seq<T>) -> T {
    least_upto_s(a, a.len())
}

/// The `len` entries from `off` on.
pub open spec fn slice_s<T>(a: Seq<T>, off: nat, len: nat) -> Seq<T> {
    Seq::new(len, |i: int| a[off + i])
}

/// Tabulates `f` over `0..n`.
pub fn tabulate<T, F: Fn(usize) -> T>(n: usize, f: F) -> (r: Vec<T>)
    requires
        forall|i: usize| i < n ==> call_requires(f, (i,)),
    ensures
        r@.len() == n,
        forall|i: int|
            0 <= i < n ==> call_ensures(f, (i as usize,), #[trigger] r@[i]),
{
    let mut r: Vec<T> = Vec::new();
    let mut i: usize = 0;
    while i < n
        invariant
            i <= n,
            r@.len() == i,
            forall|k: usize| k < n ==> call_requires(f, (k,)),
            forall|k: int| 0 <= k < i ==> call_ensures(f, (k as usize,), #[trigger] r@[k]),
        decreases n - i,
    {
        let v = f(i);
        r.push(v);
        i += 1;
    }
    r
}

pub fn vcopy<T: Copy>(a: &Vec<T>) -> (r: Vec<T>)
    ensures
        r@ == a@,
{
    let r = tabulate(
        a.len(),
        |i: usize| -> (v: T)
            requires
                i < a@.len(),
            ensures
                v == a@[i as int]
            { a[i] },
    );
    assert(r@ =~= a@);
    r
}

pub fn vfill<T: Copy>(n: usize, x: T) -> (r: Vec<T>)
    ensures
        r@ == vfill_s(n as nat, x),
{
    let r = tabulate(
        n,
        |i: usize| -> (v: T)
            ensures
                v == x
            { x },
    );
    assert(r@ =~= vfill_s(n as nat, x));
    r
}

pub fn vzeros<S: Scalar>(n: usize) -> (r: Vec<S>)
    ensures
        r@ == vzeros_s::<S>(n as nat),
{
    vfill(n, S::zero())
}

pub fn vadd<S: Scalar>(a: &Vec<S>, b: &Vec<S>) -> (r: Vec<S>)
    requires
        a@.len() == b@.len(),
    ensures
        r@ == vadd_s(a@, b@),
{
    let r = tabulate(
        a.len(),
        |i: usize| -> (v: S)
            requires
                i < a@.len(),
                i < b@.len(),
            ensures
                v == a@[i as int].add_s(b@[i as int])
            { a[i].plus(b[i]) },
    );
    assert(r@ =~= vadd_s(a@, b@));
    r
}

pub fn vsub<S: Scalar>(a: &Vec<S>, b: &Vec<S>) -> (r: Vec<S>)
    requires
        a@.len() == b@.len(),
    ensures
        r@ == vsub_s(a@, b@),
{
    let r = tabulate(
        a.len(),
        |i: usize| -> (v: S)
            requires
                i < a@.len(),
                i < b@.len(),
            ensures
                v == a@[i as int].sub_s(b@[i as int])
            { a[i].minus(b[i]) },
    );
    assert(r@ =~= vsub_s(a@, b@));
    r
}

pub fn vneg<S: Scalar>(a: &Vec<S>) -> (r: Vec<S>)
    ensures
        r@ == vneg_s(a@),
{
    let r = tabulate(
        a.len(),
        |i: usize| -> (v: S)
            requires
                i < a@.len(),
            ensures
                v == a@[i as int].neg_s()
            { a[i].negated() },
    );
    assert(r@ =~= vneg_s(a@));
    r
}

pub fn vscale<S: Scalar>(k: S, a: &Vec<S>) -> (r: Vec<S>)
    ensures
        r@ == vscale_s(k, a@),
{
    let r = tabulate(
        a.len(),
        |i: usize| -> (v: S)
            requires
                i < a@.len(),
            ensures
                v == k.mul_s(a@[i as int])
            { k.times(a[i]) },
    );
    assert(r@ =~= vscale_s(k, a@));
    r
}

pub fn vmul<S: Scalar>(a: &Vec<S>, b: &Vec<S>) -> (r: Vec<S>)
    requires
        a@.len() == b@.len(),
    ensures
        r@ == vmul_s(a@, b@),
{
    let r = tabulate(
        a.len(),
        |i: usize| -> (v: S)
            requires
                i < a@.len(),
                i < b@.len(),
            ensures
                v == a@[i as int].mul_s(b@[i as int])
            { a[i].times(b[i]) },
    );
    assert(r@ =~= vmul_s(a@, b@));
    r
}

pub fn vover<S: Scalar>(a: &Vec<S>, t: S) -> (r: Vec<S>)
    ensures
        r@ == vover_s(a@, t),
{
    let r = tabulate(
        a.len(),
        |i: usize| -> (v: S)
            requires
                i < a@.len(),
            ensures
                v == a@[i as int].div_s(t)
            { a[i].over(t) },
    );
    assert(r@ =~= vover_s(a@, t));
    r
}

pub fn dot<S: Scalar>(a: &Vec<S>, b: &Vec<S>) -> (r: S)
    requires
        a@.len() <= b@.len(),
    ensures
        r == dot_s(a@, b@),
{
    let mut acc = S::zero();
    let mut i: usize = 0;
    while i < a.len()
        invariant
            i <= a@.len() <= b@.len(),
            acc == dot_upto_s(a@, b@, i as nat),
        decreases a@.len() - i,
    {
        acc = acc.plus(a[i].times(b[i]));
        i += 1;
    }
    acc
}

pub fn norm_sq<S: Scalar>(a: &Vec<S>) -> (r: S)
    ensures
        r == norm_sq_s(a@),
{
    dot(a, a)
}

pub fn norm<S: Scalar>(a: &Vec<S>) -> (r: S)
    ensures
        r == norm_s(a@),
{
    norm_sq(a).root()
}

pub fn amax<S: Scalar>(a: &Vec<S>) -> (r: S)
    ensures
        r == amax_s(a@),
{
    let mut acc = S::zero();
    let mut i: usize = 0;
    while i < a.len()
        invariant
            i <= a@.len(),
            acc == amax_upto_s(a@, i as nat),
        decreases a@.len() - i,
    {
        acc = acc.larger(a[i].magnitude());
        i += 1;
    }
    acc
}

pub fn vmin<S: Scalar>(a: &Vec<S>) -> (r: S)
    requires
        a@.len() > 0,
    ensures
        r == vmin_s(a@),
{
    let mut acc = a[0];
    let mut i: usize = 1;
    while i < a.len()
        invariant
            1 <= i <= a@.len(),
            acc == vmin_upto_s(a@, i as nat),
        decreases a@.len() - i,
    {
        acc = acc.smaller(a[i]);
        i += 1;
    }
    acc
}

/// The largest magnitude of an entry; an unordered one is not passed over.
pub fn peak<S: Scalar>(a: &Vec<S>) -> (r: S)
    ensures
        r == peak_s(a@),
{
    if a.len() == 0 {
        return S::zero();
    }
    let mut acc = a[0].magnitude();
    let mut i: usize = 1;
    while i < a.len()
        invariant
            1 <= i <= a@.len(),
            acc == peak_upto_s(a@, i as nat),
        decreases a@.len() - i,
    {
        let b = a[i].magnitude();
        if !b.at_most(acc) {
            acc = b;
        }
        i += 1;
    }
    acc
}

/// The smallest entry; an unordered one is not passed over.
pub fn least<S: Scalar>(a: &Vec<S>) -> (r: S)
    requires
        a@.len() > 0,
    ensures
        r == least_s(a@),
{
    let mut acc = a[0];
    let mut i: usize = 1;
    while i < a.len()
        invariant
            1 <= i <= a@.len(),
            acc == least_upto_s(a@, i as nat),
        decreases a@.len() - i,
    {
        if !acc.at_most(a[i]) {
            acc = a[i];
        }
        i += 1;
    }
    acc
}

pub fn slice<T: Copy>(a: &Vec<T>, off: usize, len: usize) -> (r: Vec<T>)
    requires
        off + len <= a@.len(),
    ensures
        r@ == slice_s(a@, off as nat, len as nat),
{
    let n = a.len();
    let r = tabulate(
        len,
        |i: usize| -> (v: T)
            requires
                n == a@.len(),
                off + i < n,
            ensures
                v == a@[off + i]
            { a[off + i] },
    );
    assert(r@ =~= slice_s(a@, off as nat, len as nat));
    r
}

/// `top` with `bottom` behind it.
pub fn stack_vec<T: Copy>(top: &Vec<T>, bottom: &Vec<T>) -> (r: Vec<T>)
    ensures
        r@ == top@ + bottom@,
{
    let mut r = vcopy(top);
    let mut i: usize = 0;
    while i < bottom.len()
        invariant
            i <= bottom@.len(),
            r@ =~= top@ + bottom@.take(i as int),
        decreases bottom@.len() - i,
    {
        r.push(bottom[i]);
        i += 1;
    }
    assert(bottom@.take(bottom@.len() as int) =~= bottom@);
    r
}

// --------------------------------------------------------------- matrices
/// A matrix as a mathematical value: its rows, and how long each is.
#[verifier::ext_equal]
pub struct Mat<T> {
    pub cols: nat,
    pub rows: Seq<Seq<T>>,
}

impl<T> Mat<T> {
    pub open spec fn nrows(self) -> nat {
        self.rows.len()
    }

    pub open spec fn ncols(self) -> nat {
        self.cols
    }

    /// Every row has as many entries as the matrix has columns.
    pub open spec fn wf(self) -> bool {
        forall|i: int| 0 <= i < self.rows.len() ==> (#[trigger] self.rows[i]).len() == self.cols
    }

    pub open spec fn shaped(self, r: nat, c: nat) -> bool {
        self.wf() && self.nrows() == r && self.ncols() == c
    }

    pub open spec fn at(self, i: int, j: int) -> T {
        self.rows[i][j]
    }

    pub open spec fn build(r: nat, c: nat, f: spec_fn(int, int) -> T) -> Mat<T> {
        Mat { cols: c, rows: Seq::new(r, |i: int| Seq::new(c, |j: int| f(i, j))) }
    }
}

/// Two matrices of one shape that agree at every entry are equal.
pub proof fn lemma_mat_eq<T>(a: Mat<T>, b: Mat<T>)
    requires
        a.wf(),
        b.wf(),
        a.nrows() == b.nrows(),
        a.ncols() == b.ncols(),
        forall|i: int, j: int|
            0 <= i < a.nrows() && 0 <= j < a.ncols() ==> #[trigger] a.at(i, j) == b.at(i, j),
    ensures
        a == b,
{
    assert forall|i: int| 0 <= i < a.rows.len() implies a.rows[i] == b.rows[i] by {
        assert forall|j: int| 0 <= j < a.cols implies a.rows[i][j] == b.rows[i][j] by {
            assert(a.at(i, j) == b.at(i, j));
        }
        assert(a.rows[i] =~= b.rows[i]);
    }
    assert(a.rows =~= b.rows);
}

pub open spec fn mzeros_s<T: Arith>(r: nat, c: nat) -> Mat<T> {
    Mat::build(r, c, |i: int, j: int| T::zero_s())
}

pub open spec fn identity_s<T: Arith>(n: nat) -> Mat<T> {
    Mat::build(
        n,
        n,
        |i: int, j: int|
            if i == j {
                T::one_s()
            } else {
                T::zero_s()
            },
    )
}

pub open spec fn madd_s<T: Arith>(a: Mat<T>, b: Mat<T>) -> Mat<T> {
    Mat::build(a.nrows(), a.ncols(), |i: int, j: int| a.at(i, j).add_s(b.at(i, j)))
}

pub open spec fn msub_s<T: Arith>(a: Mat<T>, b: Mat<T>) -> Mat<T> {
    Mat::build(a.nrows(), a.ncols(), |i: int, j: int| a.at(i, j).sub_s(b.at(i, j)))
}

pub open spec fn mneg_s<T: Arith>(a: Mat<T>) -> Mat<T> {
    Mat::build(a.nrows(), a.ncols(), |i: int, j: int| a.at(i, j).neg_s())
}

pub open spec fn mscale_s<T: Arith>(k: T, a: Mat<T>) -> Mat<T> {
    Mat::build(a.nrows(), a.ncols(), |i: int, j: int| k.mul_s(a.at(i, j)))
}

pub open spec fn transpose_s<T>(a: Mat<T>) -> Mat<T> {
    Mat::build(a.ncols(), a.nrows(), |i: int, j: int| a.at(j, i))
}

pub open spec fn col_s<T>(a: Mat<T>, j: int) -> Seq<T> {
    Seq::new(a.nrows(), |i: int| a.at(i, j))
}

/// The product of two matrices: row by column.
pub open spec fn mmul_s<T: Arith>(a: Mat<T>, b: Mat<T>) -> Mat<T> {
    Mat::build(a.nrows(), b.ncols(), |i: int, j: int| dot_s(a.rows[i], col_s(b, j)))
}

/// A matrix applied to a vector.
pub open spec fn mvec_s<T: Arith>(a: Mat<T>, x: Seq<T>) -> Seq<T> {
    Seq::new(a.nrows(), |i: int| dot_s(a.rows[i], x))
}

/// `bottom` under `top`.
pub open spec fn stack_rows_s<T>(top: Mat<T>, bottom: Mat<T>) -> Mat<T> {
    Mat { cols: top.cols, rows: top.rows + bottom.rows }
}

/// The `len` rows from `off` on.
pub open spec fn row_range_s<T>(a: Mat<T>, off: nat, len: nat) -> Mat<T> {
    Mat { cols: a.cols, rows: slice_s(a.rows, off, len) }
}

/// `a` placed at column `off` of an otherwise zero matrix with `n` columns.
pub open spec fn place_s<T: Arith>(a: Mat<T>, off: nat, n: nat) -> Mat<T> {
    Mat::build(
        a.nrows(),
        n,
        |i: int, j: int|
            if off <= j < off + a.ncols() {
                a.at(i, j - off)
            } else {
                T::zero_s()
            },
    )
}

/// `a + k * I`.
pub open spec fn shift_diag_s<T: Arith>(a: Mat<T>, k: T) -> Mat<T> {
    madd_s(a, mscale_s(k, identity_s(a.nrows())))
}

/// The entries of a vector of vectors.
pub open spec fn deep<T>(v: Vec<Vec<T>>) -> Seq<Seq<T>> {
    Seq::new(v@.len(), |i: int| v@[i]@)
}

/// The model of a matrix that may be missing.
pub open spec fn opt_mat<S>(m: Option<Matrix<S>>) -> Option<Mat<S>> {
    match m {
        Some(a) => Some(a@),
        None => None,
    }
}

/// The model of a vector that may be missing.
pub open spec fn opt_vec<T>(v: Option<Vec<T>>) -> Option<Seq<T>> {
    match v {
        Some(a) => Some(a@),
        None => None,
    }
}

/// A dense matrix, stored by rows.
#[derive(Debug)]
pub struct Matrix<S> {
    cols: usize,
    rows: Vec<Vec<S>>,
}

impl<S> View for Matrix<S> {
    type V = Mat<S>;

    closed spec fn view(&self) -> Mat<S> {
        Mat { cols: self.cols as nat, rows: deep(self.rows) }
    }
}

impl<S: Scalar> Matrix<S> {
    pub fn nrows(&self) -> (r: usize)
        ensures
            r == self@.nrows(),
    {
        self.rows.len()
    }

    pub fn ncols(&self) -> (r: usize)
        ensures
            r == self@.ncols(),
    {
        self.cols
    }

    pub fn at(&self, i: usize, j: usize) -> (r: S)
        requires
            self@.wf(),
            i < self@.nrows(),
            j < self@.ncols(),
        ensures
            r == self@.at(i as int, j as int),
    {
        assert(self@.rows[i as int] == self.rows@[i as int]@);
        self.rows[i][j]
    }

    /// A copy of row `i`.
    pub fn row(&self, i: usize) -> (r: Vec<S>)
        requires
            i < self@.nrows(),
        ensures
            r@ == self@.rows[i as int],
    {
        assert(self@.rows[i as int] == self.rows@[i as int]@);
        vcopy(&self.rows[i])
    }

    /// Row `i`, borrowed.
    pub fn row_ref(&self, i: usize) -> (r: &Vec<S>)
        requires
            i < self@.nrows(),
        ensures
            r@ == self@.rows[i as int],
    {
        assert(self@.rows[i as int] == self.rows@[i as int]@);
        &self.rows[i]
    }

    /// All rows, borrowed.
    pub fn rows_ref(&self) -> (r: &Vec<Vec<S>>)
        ensures
            deep(*r) == self@.rows,
    {
        &self.rows
    }

    /// Tabulates `f` over an `r` by `c` grid.
    pub fn tabulate<F: Fn(usize, usize) -> S>(r: usize, c: usize, f: F) -> (m: Matrix<S>)
        requires
            forall|i: usize, j: usize| i < r && j < c ==> call_requires(f, (i, j)),
        ensures
            m@.shaped(r as nat, c as nat),
            forall|i: int, j: int|
                0 <= i < r && 0 <= j < c ==> call_ensures(
                    f,
                    (i as usize, j as usize),
                    #[trigger] m@.at(i, j),
                ),
    {
        let mut rows: Vec<Vec<S>> = Vec::new();
        let mut i: usize = 0;
        while i < r
            invariant
                i <= r,
                rows@.len() == i,
                forall|k: usize, j: usize| k < r && j < c ==> call_requires(f, (k, j)),
                forall|k: int| 0 <= k < i ==> (#[trigger] rows@[k])@.len() == c,
                forall|k: int, j: int|
                    0 <= k < i && 0 <= j < c ==> call_ensures(
                        f,
                        (k as usize, j as usize),
                        #[trigger] rows@[k]@[j],
                    ),
            decreases r - i,
        {
            let row = tabulate(
                c,
                |j: usize| -> (v: S)
                    requires
                        call_requires(f, (i, j)),
                    ensures
                        call_ensures(f, (i, j), v)
                    { f(i, j) },
            );
            rows.push(row);
            i += 1;
        }
        let m = Matrix { cols: c, rows };
        assert forall|k: int, j: int| 0 <= k < r && 0 <= j < c implies call_ensures(
            f,
            (k as usize, j as usize),
            #[trigger] m@.at(k, j),
        ) by {
            assert(m@.at(k, j) == rows@[k]@[j]);
        }
        m
    }

    pub fn zeros(r: usize, c: usize) -> (m: Matrix<S>)
        ensures
            m@ == mzeros_s::<S>(r as nat, c as nat),
            m@.shaped(r as nat, c as nat),
    {
        let z = S::zero();
        let m = Matrix::tabulate(
            r,
            c,
            |i: usize, j: usize| -> (v: S)
                ensures
                    v == z
                { z },
        );
        proof {
            lemma_mat_eq(m@, mzeros_s::<S>(r as nat, c as nat));
        }
        m
    }

    pub fn identity(n: usize) -> (m: Matrix<S>)
        ensures
            m@ == identity_s::<S>(n as nat),
            m@.shaped(n as nat, n as nat),
    {
        let m = Matrix::tabulate(
            n,
            n,
            |i: usize, j: usize| -> (v: S)
                ensures
                    v == if i == j {
                        S::one_s()
                    } else {
                        S::zero_s()
                    }
                {
                    if i == j {
                        S::one()
                    } else {
                        S::zero()
                    }
                },
        );
        proof {
            lemma_mat_eq(m@, identity_s::<S>(n as nat));
        }
        m
    }

    /// The matrix whose rows are `rows`.
    pub fn from_rows(cols: usize, rows: Vec<Vec<S>>) -> (m: Matrix<S>)
        requires
            forall|i: int| 0 <= i < rows@.len() ==> (#[trigger] rows@[i])@.len() == cols,
        ensures
            m@.shaped(rows@.len(), cols as nat),
            forall|i: int| 0 <= i < rows@.len() ==> #[trigger] m@.rows[i] == rows@[i]@,
    {
        Matrix { cols, rows }
    }

    /// The `r` by `c` matrix whose entries, row after row, are `data`.
    pub fn from_row_slice(r: usize, c: usize, data: &Vec<S>) -> (m: Matrix<S>)
        requires
            r * c == data@.len(),
        ensures
            m@.shaped(r as nat, c as nat),
            forall|i: int, j: int|
                0 <= i < r && 0 <= j < c ==> #[trigger] m@.at(i, j) == data@[i * c + j],
    {
        let n = data.len();
        let m = Matrix::tabulate(
            r,
            c,
            |i: usize, j: usize| -> (v: S)
                requires
                    i < r,
                    j < c,
                    n == data@.len(),
                    r * c == n,
                ensures
                    v == data@[i * c + j]
                {
                    assert(0 <= i * c && i * c + j < r * c) by (nonlinear_arith)
                        requires
                            0 <= i < r,
                            0 <= j < c,
                    ;
                    data[i * c + j]
                },
        );
        m
    }

    /// A copy.
    pub fn copied(&self) -> (m: Matrix<S>)
        ensures
            m@ == self@,
    {
        let rows = tabulate(
            self.rows.len(),
            |i: usize| -> (row: Vec<S>)
                requires
                    i < self.rows@.len(),
                ensures
                    row@ == self.rows@[i as int]@
                { vcopy(&self.rows[i]) },
        );
        let m = Matrix { cols: self.cols, rows };
        assert(m@.rows =~= self@.rows);
        m
    }

    pub fn madd(&self, o: &Matrix<S>) -> (m: Matrix<S>)
        requires
            self@.wf(),
            o@.shaped(self@.nrows(), self@.ncols()),
        ensures
            m@ == madd_s(self@, o@),
            m@.shaped(self@.nrows(), self@.ncols()),
    {
        let m = Matrix::tabulate(
            self.nrows(),
            self.ncols(),
            |i: usize, j: usize| -> (v: S)
                requires
                    self@.wf(),
                    o@.shaped(self@.nrows(), self@.ncols()),
                    i < self@.nrows(),
                    j < self@.ncols(),
                ensures
                    v == self@.at(i as int, j as int).add_s(o@.at(i as int, j as int))
                { self.at(i, j).plus(o.at(i, j)) },
        );
        proof {
            lemma_mat_eq(m@, madd_s(self@, o@));
        }
        m
    }

    pub fn msub(&self, o: &Matrix<S>) -> (m: Matrix<S>)
        requires
            self@.wf(),
            o@.shaped(self@.nrows(), self@.ncols()),
        ensures
            m@ == msub_s(self@, o@),
            m@.shaped(self@.nrows(), self@.ncols()),
    {
        let m = Matrix::tabulate(
            self.nrows(),
            self.ncols(),
            |i: usize, j: usize| -> (v: S)
                requires
                    self@.wf(),
                    o@.shaped(self@.nrows(), self@.ncols()),
                    i < self@.nrows(),
                    j < self@.ncols(),
                ensures
                    v == self@.at(i as int, j as int).sub_s(o@.at(i as int, j as int))
                { self.at(i, j).minus(o.at(i, j)) },
        );
        proof {
            lemma_mat_eq(m@, msub_s(self@, o@));
        }
        m
    }

    pub fn mneg(&self) -> (m: Matrix<S>)
        requires
            self@.wf(),
        ensures
            m@ == mneg_s(self@),
            m@.shaped(self@.nrows(), self@.ncols()),
    {
        let m = Matrix::tabulate(
            self.nrows(),
            self.ncols(),
            |i: usize, j: usize| -> (v: S)
                requires
                    self@.wf(),
                    i < self@.nrows(),
                    j < self@.ncols(),
                ensures
                    v == self@.at(i as int, j as int).neg_s()
                { self.at(i, j).negated() },
        );
        proof {
            lemma_mat_eq(m@, mneg_s(self@));
        }
        m
    }

    pub fn mscale(&self, k: S) -> (m: Matrix<S>)
        requires
            self@.wf(),
        ensures
            m@ == mscale_s(k, self@),
            m@.shaped(self@.nrows(), self@.ncols()),
    {
        let m = Matrix::tabulate(
            self.nrows(),
            self.ncols(),
            |i: usize, j: usize| -> (v: S)
                requires
                    self@.wf(),
                    i < self@.nrows(),
                    j < self@.ncols(),
                ensures
                    v == k.mul_s(self@.at(i as int, j as int))
                { k.times(self.at(i, j)) },
        );
        proof {
            lemma_mat_eq(m@, mscale_s(k, self@));
        }
        m
    }

    pub fn transpose(&self) -> (m: Matrix<S>)
        requires
            self@.wf(),
        ensures
            m@ == transpose_s(self@),
            m@.shaped(self@.ncols(), self@.nrows()),
    {
        let m = Matrix::tabulate(
            self.ncols(),
            self.nrows(),
            |i: usize, j: usize| -> (v: S)
                requires
                    self@.wf(),
                    j < self@.nrows(),
                    i < self@.ncols(),
                ensures
                    v == self@.at(j as int, i as int)
                { self.at(j, i) },
        );
        proof {
            lemma_mat_eq(m@, transpose_s(self@));
        }
        m
    }

    /// A copy of column `j`.
    pub fn col(&self, j: usize) -> (r: Vec<S>)
        requires
            self@.wf(),
            j < self@.ncols(),
        ensures
            r@ == col_s(self@, j as int),
    {
        let r = tabulate(
            self.nrows(),
            |i: usize| -> (v: S)
                requires
                    self@.wf(),
                    i < self@.nrows(),
                    j < self@.ncols(),
                ensures
                    v == self@.at(i as int, j as int)
                { self.at(i, j) },
        );
        assert(r@ =~= col_s(self@, j as int));
        r
    }

    pub fn mmul(&self, o: &Matrix<S>) -> (m: Matrix<S>)
        requires
            self@.wf(),
            o@.wf(),
            self@.ncols() == o@.nrows(),
        ensures
            m@ == mmul_s(self@, o@),
            m@.shaped(self@.nrows(), o@.ncols()),
    {
        let m = Matrix::tabulate(
            self.nrows(),
            o.ncols(),
            |i: usize, j: usize| -> (v: S)
                requires
                    self@.wf(),
                    o@.wf(),
                    self@.ncols() == o@.nrows(),
                    i < self@.nrows(),
                    j < o@.ncols(),
                ensures
                    v == dot_s(self@.rows[i as int], col_s(o@, j as int))
                { dot(self.row_ref(i), &o.col(j)) },
        );
        proof {
            lemma_mat_eq(m@, mmul_s(self@, o@));
        }
        m
    }

    /// The matrix applied to `x`.
    pub fn apply(&self, x: &Vec<S>) -> (r: Vec<S>)
        requires
            self@.wf(),
            self@.ncols() == x@.len(),
        ensures
            r@ == mvec_s(self@, x@),
    {
        let r = tabulate(
            self.nrows(),
            |i: usize| -> (v: S)
                requires
                    self@.wf(),
                    self@.ncols() == x@.len(),
                    i < self@.nrows(),
                ensures
                    v == dot_s(self@.rows[i as int], x@)
                { dot(self.row_ref(i), x) },
        );
        assert(r@ =~= mvec_s(self@, x@));
        r
    }

    /// `bottom` under this matrix.
    pub fn stack_rows(&self, bottom: &Matrix<S>) -> (m: Matrix<S>)
        requires
            self@.wf(),
            bottom@.wf(),
            bottom@.ncols() == self@.ncols(),
        ensures
            m@ == stack_rows_s(self@, bottom@),
            m@.shaped(self@.nrows() + bottom@.nrows(), self@.ncols()),
    {
        let mut rows: Vec<Vec<S>> = Vec::new();
        let mut i: usize = 0;
        while i < self.nrows()
            invariant
                self@.wf(),
                i <= self@.nrows(),
                rows@.len() == i,
                forall|k: int| 0 <= k < i ==> (#[trigger] rows@[k])@ == self@.rows[k],
            decreases self@.nrows() - i,
        {
            rows.push(self.row(i));
            i += 1;
        }
        let mut j: usize = 0;
        while j < bottom.nrows()
            invariant
                self@.wf(),
                bottom@.wf(),
                j <= bottom@.nrows(),
                rows@.len() == self@.nrows() + j,
                forall|k: int| 0 <= k < self@.nrows() ==> (#[trigger] rows@[k])@ == self@.rows[k],
                forall|k: int|
                    self@.nrows() <= k < self@.nrows() + j ==> (#[trigger] rows@[k])@
                        == bottom@.rows[k - self@.nrows()],
            decreases bottom@.nrows() - j,
        {
            rows.push(bottom.row(j));
            j += 1;
        }
        let m = Matrix { cols: self.cols, rows };
        assert(m@.rows =~= stack_rows_s(self@, bottom@).rows);
        m
    }

    /// The `len` rows from `off` on.
    pub fn row_range(&self, off: usize, len: usize) -> (m: Matrix<S>)
        requires
            self@.wf(),
            off + len <= self@.nrows(),
        ensures
            m@ == row_range_s(self@, off as nat, len as nat),
            m@.shaped(len as nat, self@.ncols()),
    {
        let n = self.nrows();
        let m = Matrix::tabulate(
            len,
            self.ncols(),
            |i: usize, j: usize| -> (v: S)
                requires
                    self@.wf(),
                    n == self@.nrows(),
                    off + i < n,
                    j < self@.ncols(),
                ensures
                    v == self@.at(off + i, j as int)
                { self.at(off + i, j) },
        );
        proof {
            lemma_mat_eq(m@, row_range_s(self@, off as nat, len as nat));
        }
        m
    }

    /// This matrix placed at column `off` of an otherwise zero matrix with
    /// `n` columns.
    pub fn place(&self, off: usize, n: usize) -> (m: Matrix<S>)
        requires
            self@.wf(),
            off + self@.ncols() <= n,
        ensures
            m@ == place_s(self@, off as nat, n as nat),
            m@.shaped(self@.nrows(), n as nat),
    {
        let c = self.ncols();
        let m = Matrix::tabulate(
            self.nrows(),
            n,
            |i: usize, j: usize| -> (v: S)
                requires
                    self@.wf(),
                    c == self@.ncols(),
                    i < self@.nrows(),
                ensures
                    v == if off <= j < off + self@.ncols() {
                        self@.at(i as int, j - off)
                    } else {
                        S::zero_s()
                    }
                {
                    if off <= j && j - off < c {
                        self.at(i, j - off)
                    } else {
                        S::zero()
                    }
                },
        );
        proof {
            lemma_mat_eq(m@, place_s(self@, off as nat, n as nat));
        }
        m
    }

    /// `self + k * I`.
    pub fn shift_diag(&self, k: S) -> (m: Matrix<S>)
        requires
            self@.shaped(self@.nrows(), self@.nrows()),
        ensures
            m@ == shift_diag_s(self@, k),
            m@.shaped(self@.nrows(), self@.nrows()),
    {
        self.madd(&Matrix::identity(self.nrows()).mscale(k))
    }
}

impl<S: Scalar> Clone for Matrix<S> {
    fn clone(&self) -> (m: Matrix<S>)
        ensures
            m@ == self@,
    {
        self.copied()
    }
}

} // verus!
