//! Triangular substitution: solving `L * L^T * x = b` through a lower
//! triangular factor `L`.

use vstd::prelude::*;

use crate::dense::{col_s, deep, vzeros, Mat, Matrix};
use crate::scalar::{Arith, Scalar};

verus! {

/// Row `i` reaches at least to the diagonal.
pub open spec fn lower_rows<T>(l: Seq<Seq<T>>) -> bool {
    forall|i: int| 0 <= i < l.len() ==> i < (#[trigger] l[i]).len()
}

/// `acc` minus the first `n` products, one after the other.
pub open spec fn sub_dot_s<T: Arith>(acc: T, a: Seq<T>, b: Seq<T>, n: nat) -> T
    decreases n,
{
    if n == 0 {
        acc
    } else {
        sub_dot_s(acc, a, b, (n - 1) as nat).sub_s(a[n - 1].mul_s(b[n - 1]))
    }
}

/// The first `n` entries of the solution of `L * w = rhs`.
pub open spec fn forward_upto_s<T: Arith>(l: Seq<Seq<T>>, rhs: Seq<T>, n: nat) -> Seq<T>
    decreases n,
{
    if n == 0 {
        Seq::empty()
    } else {
        let i = n - 1;
        let w = forward_upto_s(l, rhs, i as nat);
        w.push(sub_dot_s(rhs[i], l[i], w, i as nat).div_s(l[i][i]))
    }
}

/// Forward substitution: the solution of `L * w = rhs`.
pub open spec fn forward_s<T: Arith>(l: Seq<Seq<T>>, rhs: Seq<T>) -> Seq<T> {
    forward_upto_s(l, rhs, rhs.len())
}

/// The entries of column `i` of `l` below the diagonal.
pub open spec fn below_s<T>(l: Seq<Seq<T>>, i: int) -> Seq<T> {
    Seq::new((l.len() - i - 1) as nat, |j: int| l[i + 1 + j][i])
}

/// Entries `i..` of the solution of `L^T * x = w`.
pub open spec fn backward_from_s<T: Arith>(l: Seq<Seq<T>>, w: Seq<T>, i: nat) -> Seq<T>
    decreases l.len() - i,
{
    if i >= l.len() {
        Seq::empty()
    } else {
        let tail = backward_from_s(l, w, i + 1);
        seq![sub_dot_s(w[i as int], below_s(l, i as int), tail, tail.len()).div_s(
            l[i as int][i as int],
        )] + tail
    }
}

/// Backward substitution: the solution of `L^T * x = w`.
pub open spec fn backward_s<T: Arith>(l: Seq<Seq<T>>, w: Seq<T>) -> Seq<T> {
    backward_from_s(l, w, 0)
}

/// The solution of `L * L^T * x = b`.
pub open spec fn chol_solve_s<T: Arith>(l: Seq<Seq<T>>, b: Seq<T>) -> Seq<T> {
    backward_s(l, forward_s(l, b))
}

/// [`chol_solve_s`] for every column of `b`.
pub open spec fn chol_solve_mat_s<T: Arith>(l: Seq<Seq<T>>, b: Mat<T>) -> Mat<T> {
    Mat::build(l.len(), b.ncols(), |i: int, j: int| chol_solve_s(l, col_s(b, j))[i])
}

pub proof fn lemma_forward_len<T: Arith>(l: Seq<Seq<T>>, rhs: Seq<T>, n: nat)
    ensures
        forward_upto_s(l, rhs, n).len() == n,
    decreases n,
{
    if n > 0 {
        lemma_forward_len(l, rhs, (n - 1) as nat);
    }
}

pub proof fn lemma_backward_len<T: Arith>(l: Seq<Seq<T>>, w: Seq<T>, i: nat)
    requires
        i <= l.len(),
    ensures
        backward_from_s(l, w, i).len() == l.len() - i,
    decreases l.len() - i,
{
    if i < l.len() {
        lemma_backward_len(l, w, i + 1);
    }
}

/// Solves `L * w = rhs`.
pub fn forward<S: Scalar>(l: &Vec<Vec<S>>, rhs: &Vec<S>) -> (w: Vec<S>)
    requires
        lower_rows(deep(*l)),
        rhs@.len() <= l@.len(),
    ensures
        w@ == forward_s(deep(*l), rhs@),
        w@.len() == rhs@.len(),
{
    let ghost lv = deep(*l);
    let mut w: Vec<S> = Vec::new();
    let mut i: usize = 0;
    while i < rhs.len()
        invariant
            lv == deep(*l),
            lower_rows(lv),
            i <= rhs@.len() <= l@.len(),
            w@.len() == i,
            w@ == forward_upto_s(lv, rhs@, i as nat),
        decreases rhs@.len() - i,
    {
        let row = &l[i];
        assert(row@ == lv[i as int]);
        let mut acc = rhs[i];
        let mut j: usize = 0;
        while j < i
            invariant
                i < row@.len(),
                w@.len() == i,
                j <= i,
                i < rhs@.len(),
                acc == sub_dot_s(rhs@[i as int], row@, w@, j as nat),
            decreases i - j,
        {
            acc = acc.minus(row[j].times(w[j]));
            j += 1;
        }
        w.push(acc.over(row[i]));
        i += 1;
    }
    w
}

/// Solves `L^T * x = w`.
pub fn backward<S: Scalar>(l: &Vec<Vec<S>>, w: &Vec<S>) -> (x: Vec<S>)
    requires
        lower_rows(deep(*l)),
        w@.len() == l@.len(),
    ensures
        x@ == backward_s(deep(*l), w@),
        x@.len() == l@.len(),
{
    let ghost lv = deep(*l);
    let n = l.len();
    let mut x: Vec<S> = vzeros(n);
    let mut i: usize = n;
    while i > 0
        invariant
            lv == deep(*l),
            lower_rows(lv),
            n == l@.len(),
            w@.len() == n,
            x@.len() == n,
            i <= n,
            x@.subrange(i as int, n as int) =~= backward_from_s(lv, w@, i as nat),
        decreases i,
    {
        i -= 1;
        let ghost tail = backward_from_s(lv, w@, (i + 1) as nat);
        let ghost x0 = x@;
        let mut acc = w[i];
        let mut j: usize = i + 1;
        while j < n
            invariant
                lv == deep(*l),
                lower_rows(lv),
                n == l@.len(),
                w@.len() == n,
                x@.len() == n,
                i + 1 <= j <= n,
                tail.len() == n - i - 1,
                x@.subrange(i + 1, n as int) =~= tail,
                acc == sub_dot_s(w@[i as int], below_s(lv, i as int), tail, (j - i - 1) as nat),
            decreases n - j,
        {
            assert(l@[j as int]@ == lv[j as int]);
            assert(x@[j as int] == x@.subrange(i + 1, n as int)[j - i - 1]);
            assert(below_s(lv, i as int)[j - i - 1] == lv[j as int][i as int]);
            acc = acc.minus(l[j][i].times(x[j]));
            j += 1;
        }
        assert(l@[i as int]@ == lv[i as int]);
        x[i] = acc.over(l[i][i]);
        assert(x@.subrange(i + 1, n as int) =~= x0.subrange(i + 1, n as int));
        assert(x@.subrange(i as int, n as int) =~= seq![x@[i as int]] + x@.subrange(i + 1, n as int));
    }
    assert(x@.subrange(0, n as int) =~= x@);
    x
}

/// Solves `L * L^T * x = b`.
pub fn chol_solve<S: Scalar>(l: &Vec<Vec<S>>, b: &Vec<S>) -> (x: Vec<S>)
    requires
        lower_rows(deep(*l)),
        b@.len() == l@.len(),
    ensures
        x@ == chol_solve_s(deep(*l), b@),
        x@.len() == l@.len(),
{
    let w = forward(l, b);
    backward(l, &w)
}

/// Solves `L * L^T * X = B`, column by column.
pub fn chol_solve_mat<S: Scalar>(l: &Vec<Vec<S>>, b: &Matrix<S>) -> (x: Matrix<S>)
    requires
        lower_rows(deep(*l)),
        b@.shaped(l@.len(), b@.ncols()),
    ensures
        x@ == chol_solve_mat_s(deep(*l), b@),
        x@.shaped(l@.len(), b@.ncols()),
{
    let ghost lv = deep(*l);
    let mut cols: Vec<Vec<S>> = Vec::new();
    let mut j: usize = 0;
    while j < b.ncols()
        invariant
            lv == deep(*l),
            lower_rows(lv),
            b@.shaped(l@.len(), b@.ncols()),
            j <= b@.ncols(),
            cols@.len() == j,
            forall|k: int|
                0 <= k < j ==> (#[trigger] cols@[k])@ == chol_solve_s(lv, col_s(b@, k))
                    && cols@[k]@.len() == l@.len(),
        decreases b@.ncols() - j,
    {
        let x = chol_solve(l, &b.col(j));
        cols.push(x);
        j += 1;
    }
    let n = l.len();
    let c = b.ncols();
    let m = Matrix::tabulate(
        n,
        c,
        |i: usize, k: usize| -> (v: S)
            requires
                k < cols@.len(),
                i < cols@[k as int]@.len()
            ensures
                v == cols@[k as int]@[i as int]
            { cols[k][i] },
    );
    proof {
        crate::dense::lemma_mat_eq(m@, chol_solve_mat_s(lv, b@));
    }
    m
}

} // verus!
