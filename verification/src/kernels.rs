//! The dense linear-algebra kernels that the algorithms call but do not
//! contain: Cholesky and LU factorisation, a null-space basis, and a conic
//! solver.
//!
//! [`DenseKernels`] names their results as functions of their arguments, so
//! that contracts above can speak of them exactly; [`Backend`] is what a
//! scalar type provides to run them. For `real` the kernels are what
//! mathematics says they are.

use vstd::prelude::*;

use crate::dense::{
    col_s, mmul_s, mvec_s, mzeros_s, opt_mat, opt_vec, transpose_s, vzeros_s, Mat, Matrix,
};
use crate::scalar::{Arith, Scalar};

verus! {

/// How a conic solve ended.
#[derive(Debug, Clone, Copy, PartialEq, Eq, Structural)]
pub enum ConicStatus {
    Solved,
    AlmostSolved,
    MaxIterations,
    PrimalInfeasible,
    DualInfeasible,
    AlmostPrimalInfeasible,
    AlmostDualInfeasible,
    /// Any other outcome: unsolved, out of time, numerical trouble.
    Other,
}

/// A block of consecutive rows and the cone that its slacks lie in.
#[derive(Debug, Clone, Copy, PartialEq, Eq, Structural)]
pub enum Cone {
    /// The slacks are zero: equality rows.
    Zero(usize),
    /// The slacks are non-negative: inequality rows.
    Nonnegative(usize),
}

impl Cone {
    pub open spec fn size(self) -> nat {
        match self {
            Cone::Zero(k) => k as nat,
            Cone::Nonnegative(k) => k as nat,
        }
    }
}

/// The number of rows that `cones` cover.
pub open spec fn cone_rows_s(cones: Seq<Cone>) -> nat
    decreases cones.len(),
{
    if cones.len() == 0 {
        0
    } else {
        cone_rows_s(cones.drop_last()) + cones.last().size()
    }
}

/// A matrix in compressed column storage: column `j` holds the entries
/// `col_ptr[j] .. col_ptr[j + 1]` of `row_idx` and `vals`.
pub struct Csc<S> {
    pub rows: usize,
    pub cols: usize,
    pub col_ptr: Vec<usize>,
    pub row_idx: Vec<usize>,
    pub vals: Vec<S>,
}

/// The model of a [`Csc`].
#[verifier::ext_equal]
pub struct CscView<T> {
    pub rows: nat,
    pub cols: nat,
    pub col_ptr: Seq<usize>,
    pub row_idx: Seq<usize>,
    pub vals: Seq<T>,
}

impl<S> View for Csc<S> {
    type V = CscView<S>;

    open spec fn view(&self) -> CscView<S> {
        CscView {
            rows: self.rows as nat,
            cols: self.cols as nat,
            col_ptr: self.col_ptr@,
            row_idx: self.row_idx@,
            vals: self.vals@,
        }
    }
}

impl<T> CscView<T> {
    /// The format: column starts ascend from zero to the number of entries,
    /// and within a column the row numbers ascend strictly below `rows`.
    #[verifier::opaque]
    pub open spec fn wf(self) -> bool {
        &&& self.col_ptr.len() == self.cols + 1
        &&& self.col_ptr[0] == 0
        &&& self.col_ptr[self.cols as int] == self.vals.len()
        &&& self.row_idx.len() == self.vals.len()
        &&& forall|i: int, j: int|
            0 <= i <= j <= self.cols ==> #[trigger] self.col_ptr[i] <= #[trigger] self.col_ptr[j]
        &&& forall|k: int| 0 <= k < self.row_idx.len() ==> #[trigger] self.row_idx[k] < self.rows
        &&& forall|j: int, k: int, l: int|
            0 <= j < self.cols && #[trigger] self.col_ptr[j] <= k < l < self.col_ptr[j + 1]
                ==> #[trigger] self.row_idx[k] < #[trigger] self.row_idx[l]
    }
}

/// `min 1/2 x'Px + q'x` subject to `Ax + s = b` with `s` in the product of the
/// cones. `p` holds the upper triangle only.
pub struct ConicProblem<S> {
    pub p: Csc<S>,
    pub q: Vec<S>,
    pub a: Csc<S>,
    pub b: Vec<S>,
    pub cones: Vec<Cone>,
    pub max_iter: u32,
    /// Absolute and relative tolerance on the duality gap.
    pub tol_gap: S,
    pub tol_feas: S,
}

/// The model of a [`ConicProblem`].
#[verifier::ext_equal]
pub struct Conic<T> {
    pub p: CscView<T>,
    pub q: Seq<T>,
    pub a: CscView<T>,
    pub b: Seq<T>,
    pub cones: Seq<Cone>,
    pub max_iter: u32,
    pub tol_gap: T,
    pub tol_feas: T,
}

impl<S> View for ConicProblem<S> {
    type V = Conic<S>;

    open spec fn view(&self) -> Conic<S> {
        Conic {
            p: self.p@,
            q: self.q@,
            a: self.a@,
            b: self.b@,
            cones: self.cones@,
            max_iter: self.max_iter,
            tol_gap: self.tol_gap,
            tol_feas: self.tol_feas,
        }
    }
}

impl<T> Conic<T> {
    /// The parts are well formed and fit together.
    pub open spec fn wf(self) -> bool {
        &&& self.p.wf()
        &&& self.a.wf()
        &&& self.p.rows == self.q.len()
        &&& self.p.cols == self.q.len()
        &&& self.a.cols == self.q.len()
        &&& self.a.rows == self.b.len()
        &&& cone_rows_s(self.cones) == self.b.len()
    }
}

/// What a conic solve returns: the point, the dual of the slack constraint and
/// the iteration count.
pub struct ConicReply<S> {
    pub status: ConicStatus,
    pub x: Vec<S>,
    pub z: Vec<S>,
    pub iterations: u32,
}

/// The model of a [`ConicReply`].
#[verifier::ext_equal]
pub struct ConicAnswer<T> {
    pub status: ConicStatus,
    pub x: Seq<T>,
    pub z: Seq<T>,
    pub iterations: u32,
}

impl<S> View for ConicReply<S> {
    type V = ConicAnswer<S>;

    open spec fn view(&self) -> ConicAnswer<S> {
        ConicAnswer {
            status: self.status,
            x: self.x@,
            z: self.z@,
            iterations: self.iterations,
        }
    }
}

/// Names for the results of the kernels.
pub trait DenseKernels: Arith {
    /// The lower triangular `L` with `L * L^T == a`, if the factorisation
    /// succeeds. What stands above the diagonal is not specified.
    spec fn cholesky_s(a: Mat<Self>) -> Option<Mat<Self>>;

    /// The solution of `a * x == b` by LU factorisation, if `a` is not found
    /// singular.
    spec fn lu_solve_s(a: Mat<Self>, b: Mat<Self>) -> Option<Mat<Self>>;

    /// A matrix whose columns span the null space of `a`.
    spec fn null_space_s(a: Mat<Self>) -> Mat<Self>;

    spec fn conic_s(p: Conic<Self>) -> ConicAnswer<Self>;
}

/// The kernels, executable. Each returns what [`DenseKernels`] names.
pub trait Backend: Scalar + DenseKernels {
    fn cholesky(a: &Matrix<Self>) -> (r: Option<Matrix<Self>>)
        requires
            a@.shaped(a@.nrows(), a@.nrows()),
        ensures
            opt_mat(r) == Self::cholesky_s(a@),
            r matches Some(l) ==> l@.shaped(a@.nrows(), a@.nrows()),
    ;

    fn lu_solve(a: &Matrix<Self>, b: &Matrix<Self>) -> (r: Option<Matrix<Self>>)
        requires
            a@.shaped(a@.nrows(), a@.nrows()),
            b@.shaped(a@.nrows(), b@.ncols()),
        ensures
            opt_mat(r) == Self::lu_solve_s(a@, b@),
            r matches Some(x) ==> x@.shaped(a@.nrows(), b@.ncols()),
    ;

    fn null_space(a: &Matrix<Self>) -> (r: Matrix<Self>)
        requires
            a@.wf(),
        ensures
            r@ == Self::null_space_s(a@),
            r@.shaped(a@.ncols(), r@.ncols()),
    ;

    fn conic(p: &ConicProblem<Self>) -> (r: ConicReply<Self>)
        requires
            p@.wf(),
        ensures
            r@ == Self::conic_s(p@),
            r.x@.len() == p@.q.len(),
            r.z@.len() == p@.b.len(),
    ;
}

/// `b` as a matrix of one column.
pub open spec fn as_col_s<T>(b: Seq<T>) -> Mat<T> {
    Mat::build(b.len(), 1, |i: int, j: int| b[i])
}

/// [`DenseKernels::lu_solve_s`] for one right-hand side.
pub open spec fn lu_vec_s<T: DenseKernels>(a: Mat<T>, b: Seq<T>) -> Option<Seq<T>> {
    match T::lu_solve_s(a, as_col_s(b)) {
        Some(x) => Some(col_s(x, 0)),
        None => None,
    }
}

/// Solves `a * x == b` for one right-hand side.
pub fn lu_vec<S: Backend>(a: &Matrix<S>, b: &Vec<S>) -> (r: Option<Vec<S>>)
    requires
        a@.shaped(b@.len(), b@.len()),
    ensures
        opt_vec(r) == lu_vec_s(a@, b@),
        r matches Some(x) ==> x@.len() == b@.len(),
{
    let m = Matrix::tabulate(
        b.len(),
        1,
        |i: usize, j: usize| -> (v: S)
            requires
                i < b@.len(),
            ensures
                v == b@[i as int]
            { b[i] },
    );
    proof {
        crate::dense::lemma_mat_eq(m@, as_col_s(b@));
    }
    match S::lu_solve(a, &m) {
        Some(x) => Some(x.col(0)),
        None => None,
    }
}

/// `l` is the Cholesky factor of `a`.
pub open spec fn is_cholesky(l: Mat<real>, a: Mat<real>) -> bool {
    &&& l.shaped(a.nrows(), a.nrows())
    &&& forall|i: int, j: int| 0 <= i < j < a.nrows() ==> #[trigger] l.at(i, j) == 0real
    &&& forall|i: int| 0 <= i < a.nrows() ==> #[trigger] l.at(i, i) > 0real
    &&& mmul_s(l, transpose_s(l)) == a
}

/// Only the zero vector is mapped to zero.
pub open spec fn is_regular(a: Mat<real>) -> bool {
    forall|v: Seq<real>|
        v.len() == a.ncols() && #[trigger] mvec_s(a, v) == vzeros_s::<real>(a.nrows()) ==> v
            == vzeros_s::<real>(a.ncols())
}

pub open spec fn is_solution(x: Mat<real>, a: Mat<real>, b: Mat<real>) -> bool {
    x.shaped(a.ncols(), b.ncols()) && mmul_s(a, x) == b
}

/// The columns of `z` are a basis of the null space of `a`.
pub open spec fn is_null_basis(z: Mat<real>, a: Mat<real>) -> bool {
    &&& z.shaped(a.ncols(), z.ncols())
    &&& mmul_s(a, z) == mzeros_s::<real>(a.nrows(), z.ncols())
    &&& is_regular(z)
    &&& forall|v: Seq<real>|
        v.len() == a.ncols() && #[trigger] mvec_s(a, v) == vzeros_s::<real>(a.nrows())
            ==> exists|w: Seq<real>| w.len() == z.ncols() && #[trigger] mvec_s(z, w) == v
}

/// An answer has a point and a dual of the problem's lengths.
pub open spec fn fits_problem<T>(a: ConicAnswer<T>, p: Conic<T>) -> bool {
    a.x.len() == p.q.len() && a.z.len() == p.b.len()
}

/// The conic answer over `real` fits its problem.
pub proof fn lemma_conic_fits(p: Conic<real>)
    ensures
        fits_problem(real::conic_s(p), p),
{
    let a = ConicAnswer {
        status: ConicStatus::Other,
        x: vzeros_s::<real>(p.q.len()),
        z: vzeros_s::<real>(p.b.len()),
        iterations: 0,
    };
    assert(fits_problem(a, p));
}

impl DenseKernels for real {
    open spec fn cholesky_s(a: Mat<real>) -> Option<Mat<real>> {
        if exists|l: Mat<real>| is_cholesky(l, a) {
            Some(choose|l: Mat<real>| is_cholesky(l, a))
        } else {
            None
        }
    }

    open spec fn lu_solve_s(a: Mat<real>, b: Mat<real>) -> Option<Mat<real>> {
        if is_regular(a) && exists|x: Mat<real>| is_solution(x, a, b) {
            Some(choose|x: Mat<real>| is_solution(x, a, b))
        } else {
            None
        }
    }

    open spec fn null_space_s(a: Mat<real>) -> Mat<real> {
        choose|z: Mat<real>| is_null_basis(z, a)
    }

    /// Left open but for the lengths: no law speaks of what an outside conic
    /// solver returns.
    open spec fn conic_s(p: Conic<real>) -> ConicAnswer<real> {
        choose|a: ConicAnswer<real>| fits_problem(a, p)
    }
}

} // verus!
