//! One level of a hierarchical quadratic program.
//!
//! Each level is solved in the null space of all higher-priority equalities.
//! Its own inequalities are relaxed by slack variables, which the cost
//! minimises; the inequalities of higher levels stay hard, with the slack that
//! those levels needed. With `x` the point and `Z` the null-space basis that
//! the higher levels leave, the level's problem over `(z, v)` is
//!
//! ```text
//!   min  1/2 |A (x + Z z) - b|^2 + 1/2 |v|^2
//!   s.t. v >= 0
//!        D_prev (x + Z z) <= f_prev + v_prev
//!        D (x + Z z) <= f + v
//! ```
//!
//! and the new point is `x + Z z`.

use vstd::prelude::*;

use crate::active_start::opt_warm;
use crate::dense::{
    identity_s, mmul_s, mneg_s, mvec_s, mzeros_s, shift_diag_s, slice, slice_s, stack_rows_s,
    stack_vec, tabulate, transpose_s, vadd, vadd_s, vcopy, vscale, vscale_s, vsub, vsub_s, vzeros,
    vzeros_s, Mat, Matrix,
};
use crate::kernels::{Backend, DenseKernels};
use crate::qp::{
    opt_stored, solve_qp_impl, solve_qp_s, QpArgs, QpConfig, QpSolution, QpStatus, QpWorkspace, Sol,
    Warm,
};
use crate::scalar::{lit_s, Arith, Scalar};
use crate::task::{Task, Tsk};

verus! {

/// What the levels solved so far leave to the next one.
#[verifier::ext_equal]
pub struct HoState<T> {
    /// A basis of the null space of all equalities so far.
    pub z: Mat<T>,
    /// All inequalities so far, with the slack that each needed.
    pub d: Mat<T>,
    pub f: Seq<T>,
    pub slack: Seq<T>,
    /// The point.
    pub x: Seq<T>,
    /// How the last level ended.
    pub status: QpStatus,
}

impl<T> HoState<T> {
    pub open spec fn n(self) -> nat {
        self.x.len()
    }

    pub open spec fn wf(self) -> bool {
        &&& self.z.shaped(self.x.len(), self.z.ncols())
        &&& self.d.shaped(self.f.len(), self.x.len())
        &&& self.slack.len() == self.f.len()
    }
}

/// Before the first level.
pub open spec fn ho_start_s<T: Arith>(n: nat) -> HoState<T> {
    HoState {
        z: identity_s(n),
        d: mzeros_s(0, n),
        f: Seq::empty(),
        slack: Seq::empty(),
        x: vzeros_s(n),
        status: QpStatus::Optimal,
    }
}

/// The proximal anchor: a point and a weight. The weight counts where it is
/// positive and the point has the length of the decision vector.
#[verifier::ext_equal]
pub struct Anchor<T> {
    pub x: Option<Seq<T>>,
    pub weight: T,
}

impl<T: Arith> Anchor<T> {
    pub open spec fn pulls(self, n: nat) -> bool {
        &&& T::zero_s().lt_s(self.weight)
        &&& self.x matches Some(x) && x.len() == n
    }
}

/// The positive part of every entry.
pub open spec fn positive_s<T: Arith>(v: Seq<T>) -> Seq<T> {
    Seq::new(v.len(), |i: int| v[i].max_s(T::zero_s()))
}

/// The slack with which the inequalities of `t` hold at `x`.
pub open spec fn excess_s<T: Arith>(t: Tsk<T>, x: Seq<T>) -> Seq<T> {
    positive_s(vsub_s(mvec_s(t.d, x), t.f))
}

/// `[a b]`.
pub open spec fn hcat_s<T>(a: Mat<T>, b: Mat<T>) -> Mat<T> {
    Mat {
        cols: a.cols + b.cols,
        rows: Seq::new(a.nrows(), |i: int| a.rows[i] + b.rows[i]),
    }
}

/// The Hessian over the null-space coordinates.
pub open spec fn ho_hzz_s<T: Arith>(st: HoState<T>, t: Tsk<T>, anchor: Anchor<T>) -> Mat<T> {
    let k = st.z.ncols();
    let az = mmul_s(t.a, st.z);
    let base = if t.a.nrows() > 0 {
        shift_diag_s(mmul_s(transpose_s(az), az), lit_s::<T>(1, -12))
    } else {
        mzeros_s(k, k)
    };
    if anchor.pulls(st.n()) {
        shift_diag_s(base, anchor.weight)
    } else {
        base
    }
}

/// The linear cost over the null-space coordinates.
pub open spec fn ho_cz_s<T: Arith>(st: HoState<T>, t: Tsk<T>, anchor: Anchor<T>) -> Seq<T> {
    let k = st.z.ncols();
    let base = if t.a.nrows() > 0 {
        mvec_s(transpose_s(mmul_s(t.a, st.z)), vsub_s(mvec_s(t.a, st.x), t.b))
    } else {
        vzeros_s(k)
    };
    if anchor.pulls(st.n()) {
        vsub_s(
            base,
            vscale_s(anchor.weight, mvec_s(transpose_s(st.z), vsub_s(anchor.x->0, st.x))),
        )
    } else {
        base
    }
}

/// The Hessian over coordinates and slack.
pub open spec fn ho_h_s<T: Arith>(st: HoState<T>, t: Tsk<T>, anchor: Anchor<T>) -> Mat<T> {
    let k = st.z.ncols();
    let m = t.f.len();
    stack_rows_s(
        hcat_s(ho_hzz_s(st, t, anchor), mzeros_s(k, m)),
        hcat_s(mzeros_s(m, k), identity_s(m)),
    )
}

/// The inequality rows over coordinates and slack.
pub open spec fn ho_d_s<T: Arith>(st: HoState<T>, t: Tsk<T>) -> Mat<T> {
    let k = st.z.ncols();
    let m = t.f.len();
    let neg = mneg_s(identity_s::<T>(m));
    stack_rows_s(
        stack_rows_s(
            hcat_s(mzeros_s(m, k), neg),
            hcat_s(mmul_s(st.d, st.z), mzeros_s(st.f.len(), m)),
        ),
        hcat_s(mmul_s(t.d, st.z), neg),
    )
}

/// Their bounds.
pub open spec fn ho_f_s<T: Arith>(st: HoState<T>, t: Tsk<T>) -> Seq<T> {
    vzeros_s(t.f.len()) + vadd_s(vsub_s(st.f, mvec_s(st.d, st.x)), st.slack) + vsub_s(
        t.f,
        mvec_s(t.d, st.x),
    )
}

/// The level's quadratic program, with the point that stays where it is and
/// takes the slack it needs as the start.
pub open spec fn ho_args_s<T: Arith>(st: HoState<T>, t: Tsk<T>, anchor: Anchor<T>) -> QpArgs<T> {
    let k = st.z.ncols();
    let m = t.f.len();
    QpArgs {
        h: ho_h_s(st, t, anchor),
        c: ho_cz_s(st, t, anchor) + vzeros_s(m),
        a_eq: None,
        b_eq: None,
        a_iq: Some(ho_d_s(st, t)),
        b_iq: Some(ho_f_s(st, t)),
        x0: Some(vzeros_s(k) + excess_s(t, st.x)),
    }
}

/// What the level leaves, given the solution of its program. A level that did
/// not reach its optimum holds the point.
pub open spec fn ho_next_s<T: DenseKernels>(st: HoState<T>, t: Tsk<T>, sol: Sol<T>) -> HoState<T> {
    let k = st.z.ncols();
    let solved = sol.status == QpStatus::Optimal;
    HoState {
        z: if t.a.nrows() > 0 {
            mmul_s(st.z, T::null_space_s(mmul_s(t.a, st.z)))
        } else {
            st.z
        },
        d: stack_rows_s(st.d, t.d),
        f: st.f + t.f,
        slack: st.slack + (if solved {
            slice_s(sol.x, k, t.f.len())
        } else {
            excess_s(t, st.x)
        }),
        x: if solved {
            vadd_s(st.x, mvec_s(st.z, slice_s(sol.x, 0, k)))
        } else {
            st.x
        },
        status: sol.status,
    }
}

/// One level: what it leaves, and the warm-start state to store.
#[verifier::opaque]
pub open spec fn ho_level_s<T: DenseKernels>(
    st: HoState<T>,
    t: Tsk<T>,
    anchor: Anchor<T>,
    cfg: QpConfig<T>,
    prior: Option<Warm<T>>,
) -> (HoState<T>, Option<Warm<T>>) {
    let (sol, stored) = solve_qp_s(ho_args_s(st, t, anchor), cfg, prior);
    (ho_next_s(st, t, sol), stored)
}

/// The proximal anchor of a solve: the previous tick's solution and the weight
/// of the pull towards it.
pub struct WarmStart<'a, S> {
    pub x_prev: Option<&'a Vec<S>>,
    pub prox_weight: S,
}

impl<'a, S> View for WarmStart<'a, S> {
    type V = Anchor<S>;

    open spec fn view(&self) -> Anchor<S> {
        Anchor { x: crate::qp::opt_vec_ref(self.x_prev), weight: self.prox_weight }
    }
}

/// A solved level of the hierarchy, with everything that the next level needs.
#[derive(Debug)]
pub struct HoQp<S> {
    z: Matrix<S>,
    d: Matrix<S>,
    f: Vec<S>,
    slack: Vec<S>,
    x: Vec<S>,
    status: QpStatus,
}

impl<S> View for HoQp<S> {
    type V = HoState<S>;

    closed spec fn view(&self) -> HoState<S> {
        HoState {
            z: self.z@,
            d: self.d@,
            f: self.f@,
            slack: self.slack@,
            x: self.x@,
            status: self.status,
        }
    }
}

fn positive<S: Scalar>(v: &Vec<S>) -> (r: Vec<S>)
    ensures
        r@ == positive_s(v@),
{
    let r = tabulate(
        v.len(),
        |i: usize| -> (x: S)
            requires
                i < v@.len(),
            ensures
                x == v@[i as int].max_s(S::zero_s())
            { v[i].larger(S::zero()) },
    );
    assert(r@ =~= positive_s(v@));
    r
}

fn hcat<S: Scalar>(a: &Matrix<S>, b: &Matrix<S>, cols: usize) -> (r: Matrix<S>)
    requires
        a@.wf(),
        b@.wf(),
        a@.nrows() == b@.nrows(),
        cols == a@.ncols() + b@.ncols(),
    ensures
        r@ == hcat_s(a@, b@),
        r@.shaped(a@.nrows(), cols as nat),
{
    let n = a.nrows();
    let rows = tabulate(
        n,
        |i: usize| -> (row: Vec<S>)
            requires
                i < a@.nrows(),
                i < b@.nrows(),
            ensures
                row@ == a@.rows[i as int] + b@.rows[i as int]
            { stack_vec(a.row_ref(i), b.row_ref(i)) },
    );
    let r = Matrix::from_rows(cols, rows);
    assert(r@.rows =~= hcat_s(a@, b@).rows);
    r
}

impl<'a, S: Scalar> WarmStart<'a, S> {
    /// No pull.
    pub fn none() -> (w: WarmStart<'a, S>)
        ensures
            w@ == (Anchor { x: None, weight: S::zero_s() }),
    {
        WarmStart { x_prev: None, prox_weight: S::zero() }
    }

    fn pull(&self, n: usize) -> (r: Option<&'a Vec<S>>)
        ensures
            self@.pulls(n as nat) ==> (r matches Some(x) && self@.x == Some(x@) && x@.len() == n),
            !self@.pulls(n as nat) ==> r is None,
    {
        if S::zero().less_than(self.prox_weight) {
            if let Some(x) = self.x_prev {
                if x.len() == n {
                    return Some(x);
                }
            }
        }
        None
    }
}

impl<S: Backend> HoQp<S> {
    /// The state before the first level, over `n` decision variables.
    pub fn start(n: usize) -> (h: HoQp<S>)
        ensures
            h@ == ho_start_s::<S>(n as nat),
            h@.wf(),
    {
        let f: Vec<S> = Vec::new();
        let slack: Vec<S> = Vec::new();
        assert(f@ =~= Seq::<S>::empty());
        assert(slack@ =~= Seq::<S>::empty());
        HoQp {
            z: Matrix::identity(n),
            d: Matrix::zeros(0, n),
            f,
            slack,
            x: vzeros(n),
            status: QpStatus::Optimal,
        }
    }

    fn cost(&self, t: &Task<S>, warm: &WarmStart<S>) -> (r: (Matrix<S>, Vec<S>))
        requires
            self@.wf(),
            t@.wf(),
            t@.n() == self@.n(),
        ensures
            r.0@ == ho_hzz_s(self@, t@, warm@),
            r.1@ == ho_cz_s(self@, t@, warm@),
            r.0@.shaped(self@.z.ncols(), self@.z.ncols()),
            r.1@.len() == self@.z.ncols(),
    {
        let k = self.z.ncols();
        let (h, c) = if t.n_eq() > 0 {
            let az = t.a.mmul(&self.z);
            let azt = az.transpose();
            let res = vsub(&t.a.apply(&self.x), &t.b);
            (azt.mmul(&az).shift_diag(S::dec(1, -12)), azt.apply(&res))
        } else {
            (Matrix::zeros(k, k), vzeros(k))
        };
        match warm.pull(self.x.len()) {
            Some(anchor) => {
                let gap = self.z.transpose().apply(&vsub(anchor, &self.x));
                (h.shift_diag(warm.prox_weight), vsub(&c, &vscale(warm.prox_weight, &gap)))
            },
            None => (h, c),
        }
    }

    fn bounds(&self, t: &Task<S>) -> (f: Vec<S>)
        requires
            self@.wf(),
            t@.wf(),
            t@.n() == self@.n(),
        ensures
            f@ == ho_f_s(self@, t@),
            f@.len() == t@.f.len() + self@.f.len() + t@.f.len(),
    {
        let upper = vadd(&vsub(&self.f, &self.d.apply(&self.x)), &self.slack);
        let own = vsub(&t.f, &t.d.apply(&self.x));
        stack_vec(&stack_vec(&vzeros(t.f.len()), &upper), &own)
    }

    fn rows(&self, t: &Task<S>, km: usize) -> (d: Matrix<S>)
        requires
            self@.wf(),
            t@.wf(),
            t@.n() == self@.n(),
            km == self@.z.ncols() + t@.f.len(),
        ensures
            d@ == ho_d_s(self@, t@),
            d@.shaped(t@.f.len() + self@.f.len() + t@.f.len(), km as nat),
    {
        let k = self.z.ncols();
        let m = t.f.len();
        let neg = Matrix::identity(m).mneg();
        let top = hcat(&Matrix::zeros(m, k), &neg, km);
        let mid = hcat(&self.d.mmul(&self.z), &Matrix::zeros(self.f.len(), m), km);
        let low = hcat(&t.d.mmul(&self.z), &neg, km);
        top.stack_rows(&mid).stack_rows(&low)
    }

    /// Solves the level of `task` below this one. `prior` is the warm-start
    /// state of the level; the second result is the state to store.
    pub fn descend(
        &self,
        task: &Task<S>,
        warm: &WarmStart<S>,
        cfg: &QpConfig<S>,
        prior: Option<&QpWorkspace<S>>,
    ) -> (r: (HoQp<S>, Option<QpWorkspace<S>>))
        requires
            self@.wf(),
            task@.wf(),
            task@.n() == self@.n(),
        ensures
            (r.0@, opt_stored(r.1)) == ho_level_s(self@, task@, warm@, *cfg, opt_warm(prior)),
            r.0@.wf(),
            r.0@.n() == self@.n(),
    {
        proof {
            reveal(ho_level_s);
        }
        let k = self.z.ncols();
        let m = task.f.len();
        let (hzz, cz) = self.cost(task, warm);
        let c = stack_vec(&cz, &vzeros(m));
        let km = c.len();
        let h = hcat(&hzz, &Matrix::zeros(k, m), km).stack_rows(
            &hcat(&Matrix::zeros(m, k), &Matrix::identity(m), km),
        );
        let d = self.rows(task, km);
        let f = self.bounds(task);
        let excess = positive(&vsub(&task.d.apply(&self.x), &task.f));
        let x0 = stack_vec(&vzeros(k), &excess);
        let (sol, stored) = solve_qp_impl(
            &h,
            &c,
            None,
            None,
            Some(&d),
            Some(&f),
            Some(&x0),
            cfg,
            prior,
        );
        (self.next(task, &sol, &excess), stored)
    }

    /// What the level of `task` leaves, given the solution of its program.
    fn next(&self, task: &Task<S>, sol: &QpSolution<S>, excess: &Vec<S>) -> (r: HoQp<S>)
        requires
            self@.wf(),
            task@.wf(),
            task@.n() == self@.n(),
            sol@.x.len() == self@.z.ncols() + task@.f.len(),
            excess@ == excess_s(task@, self@.x),
        ensures
            r@ == ho_next_s(self@, task@, sol@),
            r@.wf(),
            r@.n() == self@.n(),
    {
        let k = self.z.ncols();
        let m = task.f.len();
        let solved = match sol.status {
            QpStatus::Optimal => true,
            _ => false,
        };
        let z = if task.n_eq() > 0 {
            self.z.mmul(&S::null_space(&task.a.mmul(&self.z)))
        } else {
            self.z.copied()
        };
        let (x, own) = if solved {
            (
                vadd(&self.x, &self.z.apply(&slice(&sol.x, 0, k))),
                slice(&sol.x, k, m),
            )
        } else {
            (vcopy(&self.x), vcopy(excess))
        };
        HoQp {
            z,
            d: self.d.stack_rows(&task.d),
            f: stack_vec(&self.f, &task.f),
            slack: stack_vec(&self.slack, &own),
            x,
            status: sol.status,
        }
    }
}

impl<S: Scalar> HoQp<S> {
    /// How this level's program ended.
    pub fn status(&self) -> (r: QpStatus)
        ensures
            r == self@.status,
    {
        self.status
    }

    /// The point.
    pub fn solution(&self) -> (r: &Vec<S>)
        ensures
            r@ == self@.x,
    {
        &self.x
    }
}

} // verus!
