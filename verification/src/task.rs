//! The elementary task: a soft equality `A x = b` (a least-squares cost) and a
//! hard inequality `D x <= f` on one decision vector. Tasks of one priority
//! level are combined with `+`.

use vstd::prelude::*;

use crate::affine::{Aff, Affine};
use crate::dense::{
    mneg_s, mscale_s, mzeros_s, stack_rows_s, stack_vec, vcopy, vneg, vneg_s, vscale, vscale_s,
    vsub, vsub_s, Mat, Matrix,
};
use crate::scalar::{Arith, Scalar};

verus! {

/// The model of a [`Task`].
#[verifier::ext_equal]
pub struct Tsk<T> {
    pub a: Mat<T>,
    pub b: Seq<T>,
    pub d: Mat<T>,
    pub f: Seq<T>,
}

impl<T> Tsk<T> {
    /// The length of the decision vector.
    pub open spec fn n(self) -> nat {
        self.a.ncols()
    }

    /// Both blocks have one bound per row and act on one decision vector.
    pub open spec fn wf(self) -> bool {
        &&& self.a.shaped(self.b.len(), self.a.ncols())
        &&& self.d.shaped(self.f.len(), self.a.ncols())
    }
}

pub open spec fn equality_s<T: Arith>(a: Mat<T>, b: Seq<T>) -> Tsk<T> {
    Tsk { a, b, d: mzeros_s(0, a.ncols()), f: Seq::empty() }
}

pub open spec fn inequality_s<T: Arith>(d: Mat<T>, f: Seq<T>) -> Tsk<T> {
    Tsk { a: mzeros_s(0, d.ncols()), b: Seq::empty(), d, f }
}

pub open spec fn empty_s<T: Arith>(n: nat) -> Tsk<T> {
    Tsk { a: mzeros_s(0, n), b: Seq::empty(), d: mzeros_s(0, n), f: Seq::empty() }
}

/// Drives `e` to zero: `M x = -q`.
pub open spec fn soft_eq_s<T: Arith>(e: Aff<T>) -> Tsk<T> {
    equality_s(e.m, vneg_s(e.q))
}

/// `e <= f`: `M x <= f - q`.
pub open spec fn le_s<T: Arith>(e: Aff<T>, f: Seq<T>) -> Tsk<T> {
    inequality_s(e.m, vsub_s(f, e.q))
}

/// `e >= lb`: `-M x <= q - lb`.
pub open spec fn ge_s<T: Arith>(e: Aff<T>, lb: Seq<T>) -> Tsk<T> {
    inequality_s(mneg_s(e.m), vsub_s(e.q, lb))
}

/// The rows of both.
pub open spec fn plus_s<T>(t: Tsk<T>, u: Tsk<T>) -> Tsk<T> {
    Tsk {
        a: stack_rows_s(t.a, u.a),
        b: t.b + u.b,
        d: stack_rows_s(t.d, u.d),
        f: t.f + u.f,
    }
}

/// `lb <= e <= ub`: the upper bounds, then the lower ones.
pub open spec fn in_range_s<T: Arith>(lb: Seq<T>, e: Aff<T>, ub: Seq<T>) -> Tsk<T> {
    plus_s(le_s(e, ub), ge_s(e, lb))
}

/// The equality's cost multiplied by `w`.
pub open spec fn weight_s<T: Arith>(t: Tsk<T>, w: T) -> Tsk<T> {
    Tsk { a: mscale_s(w.sqrt_s(), t.a), b: vscale_s(w.sqrt_s(), t.b), ..t }
}

/// A soft equality `A x = b` and a hard inequality `D x <= f`.
#[derive(Debug)]
pub struct Task<S> {
    pub a: Matrix<S>,
    pub b: Vec<S>,
    pub d: Matrix<S>,
    pub f: Vec<S>,
}

impl<S> View for Task<S> {
    type V = Tsk<S>;

    open spec fn view(&self) -> Tsk<S> {
        Tsk { a: self.a@, b: self.b@, d: self.d@, f: self.f@ }
    }
}

fn no_rows<S: Scalar>() -> (r: Vec<S>)
    ensures
        r@ == Seq::<S>::empty(),
{
    let r: Vec<S> = Vec::new();
    assert(r@ =~= Seq::<S>::empty());
    r
}

impl<S: Scalar> Task<S> {
    /// The soft equality `A x = b` alone.
    pub fn equality(a: Matrix<S>, b: Vec<S>) -> (t: Task<S>)
        requires
            a@.shaped(b@.len(), a@.ncols()),
        ensures
            t@ == equality_s(a@, b@),
            t@.wf(),
    {
        let n = a.ncols();
        Task { a, b, d: Matrix::zeros(0, n), f: no_rows() }
    }

    /// The hard inequality `D x <= f` alone.
    pub fn inequality(d: Matrix<S>, f: Vec<S>) -> (t: Task<S>)
        requires
            d@.shaped(f@.len(), d@.ncols()),
        ensures
            t@ == inequality_s(d@, f@),
            t@.wf(),
    {
        let n = d.ncols();
        Task { a: Matrix::zeros(0, n), b: no_rows(), d, f }
    }

    /// No rows, over `n` decision variables: neutral for `+`.
    pub fn empty(n: usize) -> (t: Task<S>)
        ensures
            t@ == empty_s::<S>(n as nat),
            t@.wf(),
    {
        Task { a: Matrix::zeros(0, n), b: no_rows(), d: Matrix::zeros(0, n), f: no_rows() }
    }

    /// Drives an affine expression to zero.
    pub fn soft_eq(e: &Affine<S>) -> (t: Task<S>)
        requires
            e@.wf(),
        ensures
            t@ == soft_eq_s(e@),
            t@.wf(),
    {
        Task::equality(e.m().copied(), vneg(e.q()))
    }

    /// `e <= f`.
    pub fn le(e: &Affine<S>, f: &Vec<S>) -> (t: Task<S>)
        requires
            e@.wf(),
            f@.len() == e@.out(),
        ensures
            t@ == le_s(e@, f@),
            t@.wf(),
    {
        Task::inequality(e.m().copied(), vsub(f, e.q()))
    }

    /// `e >= lb`.
    pub fn ge(e: &Affine<S>, lb: &Vec<S>) -> (t: Task<S>)
        requires
            e@.wf(),
            lb@.len() == e@.out(),
        ensures
            t@ == ge_s(e@, lb@),
            t@.wf(),
    {
        Task::inequality(e.m().mneg(), vsub(e.q(), lb))
    }

    /// `lb <= e <= ub`: the rows of the upper bounds, then those of the lower.
    pub fn in_range(lb: &Vec<S>, e: &Affine<S>, ub: &Vec<S>) -> (t: Task<S>)
        requires
            e@.wf(),
            lb@.len() == e@.out(),
            ub@.len() == e@.out(),
        ensures
            t@ == in_range_s(lb@, e@, ub@),
            t@.wf(),
    {
        Task::le(e, ub).plus(&Task::ge(e, lb))
    }

    /// The rows of both tasks at one priority level.
    pub fn plus(&self, o: &Task<S>) -> (t: Task<S>)
        requires
            self@.wf(),
            o@.wf(),
            o@.n() == self@.n(),
        ensures
            t@ == plus_s(self@, o@),
            t@.wf(),
    {
        Task {
            a: self.a.stack_rows(&o.a),
            b: stack_vec(&self.b, &o.b),
            d: self.d.stack_rows(&o.d),
            f: stack_vec(&self.f, &o.f),
        }
    }

    /// The task with its least-squares cost multiplied by `w`: the equality
    /// rows are scaled by the root of `w`. The inequalities stay.
    pub fn weight(&self, w: S) -> (t: Task<S>)
        requires
            self@.wf(),
        ensures
            t@ == weight_s(self@, w),
            t@.wf(),
    {
        let k = w.root();
        Task {
            a: self.a.mscale(k),
            b: vscale(k, &self.b),
            d: self.d.copied(),
            f: vcopy(&self.f),
        }
    }

    /// The number of equality rows.
    pub fn n_eq(&self) -> (r: usize)
        ensures
            r == self@.a.nrows(),
    {
        self.a.nrows()
    }

    /// The number of inequality rows.
    pub fn n_iq(&self) -> (r: usize)
        ensures
            r == self@.d.nrows(),
    {
        self.d.nrows()
    }

    /// The length of the decision vector.
    pub fn n_decision(&self) -> (r: usize)
        ensures
            r == self@.n(),
    {
        self.a.ncols()
    }
}

impl<S: Scalar> Clone for Task<S> {
    fn clone(&self) -> (t: Task<S>)
        ensures
            t@ == self@,
    {
        Task { a: self.a.copied(), b: vcopy(&self.b), d: self.d.copied(), f: vcopy(&self.f) }
    }
}

impl<S: Scalar> vstd::std_specs::ops::AddSpecImpl<Task<S>> for Task<S> {
    open spec fn obeys_add_spec() -> bool {
        false
    }

    open spec fn add_req(self, rhs: Task<S>) -> bool {
        self@.wf() && rhs@.wf() && rhs@.n() == self@.n()
    }

    open spec fn add_spec(self, rhs: Task<S>) -> Task<S> {
        arbitrary()
    }
}

impl<S: Scalar> core::ops::Add<Task<S>> for Task<S> {
    type Output = Task<S>;

    fn add(self, rhs: Task<S>) -> (t: Task<S>)
        ensures
            t@ == plus_s(self@, rhs@),
    {
        self.plus(&rhs)
    }
}

} // verus!
