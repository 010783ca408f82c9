//! One place that answers "what is the joint acceleration?" and "what is the
//! torque?" as affine expressions of the decision vector, so that the same
//! task declarations work in each of three formulations:
//!
//! | [`Formulation`] | decision vector | eliminated |
//! |---|---|---|
//! | `Explicit` | `[qddot; f; tau]` | nothing |
//! | `AccelSpace` | `[qddot; f]` | `tau`, by the actuated rows |
//! | `ForceSpace` | `[tau; f]` | `qddot`, by the inverse of `M` |
//!
//! The equation of motion is `M qddot + h = S' tau + Jc' f`, where `S` selects
//! the last `na` joints.

use vstd::prelude::*;

use crate::affine::{
    aff_add_s, aff_minus_s, aff_plus_s, aff_sub_s, coef_var_s, eval_s, layout_s, offset_s,
    var_affine_s, Aff, Affine, Block, Layout, Var, VarLayout,
};
use crate::dense::{row_range_s, slice, slice_s, transpose_s, vcopy, Mat, Matrix};
use crate::kernels::{Backend, DenseKernels};
use crate::scalar::{Arith, Scalar};
use crate::task::{soft_eq_s, Task, Tsk};
use crate::tasks::{actuation, actuation_s, eom_residual_s, equation_of_motion};
use crate::triangular::{chol_solve, chol_solve_mat, chol_solve_mat_s, chol_solve_s};

verus! {

/// Which quantities are decision variables.
#[derive(Debug, Clone, Copy, PartialEq, Eq, Structural)]
#[non_exhaustive]
pub enum Formulation {
    /// `[qddot; f; tau]`: everything explicit, the equation of motion as an
    /// equality task.
    Explicit,
    /// `[qddot; f]`: the torque eliminated through the actuated rows.
    AccelSpace,
    /// `[tau; f]`: the acceleration eliminated through the inverse of `M`.
    ForceSpace,
}

/// Physical quantities recovered from a solution vector, whichever formulation
/// produced it.
#[derive(Debug)]
pub struct Extracted<S> {
    /// Generalised accelerations.
    pub qddot: Vec<S>,
    /// Stacked contact forces.
    pub forces: Vec<S>,
    /// Actuated joint torques.
    pub tau: Vec<S>,
}

impl<S: Scalar> Clone for Extracted<S> {
    fn clone(&self) -> (r: Extracted<S>)
        ensures
            r.qddot@ == self.qddot@,
            r.forces@ == self.forces@,
            r.tau@ == self.tau@,
    {
        Extracted {
            qddot: vcopy(&self.qddot),
            forces: vcopy(&self.forces),
            tau: vcopy(&self.tau),
        }
    }
}

/// The model of a [`Dynamics`].
#[verifier::ext_equal]
pub struct Dyn<T> {
    pub formulation: Formulation,
    pub layout: Layout,
    pub qddot: Aff<T>,
    pub tau: Aff<T>,
    pub forces: Block,
    pub physics: Option<Tsk<T>>,
}

impl<T> Dyn<T> {
    /// The expressions are over the decision vector of the layout.
    pub open spec fn wf(self) -> bool {
        &&& self.qddot.wf()
        &&& self.tau.wf()
        &&& self.qddot.n() == self.layout.n
        &&& self.tau.n() == self.layout.n
        &&& self.forces.wf()
        &&& self.forces.n == self.layout.n
        &&& self.physics matches Some(t) ==> t.wf() && t.n() == self.layout.n
    }
}

/// The blocks of a layout with these names and sizes.
pub open spec fn explicit_layout_s(nv: nat, nf: nat, na: nat) -> Layout {
    layout_s(seq![("qddot"@, nv), ("f"@, nf), ("tau"@, na)])
}

pub open spec fn accel_layout_s(nv: nat, nf: nat) -> Layout {
    layout_s(seq![("qddot"@, nv), ("f"@, nf)])
}

pub open spec fn force_layout_s(na: nat, nf: nat) -> Layout {
    layout_s(seq![("tau"@, na), ("f"@, nf)])
}

/// Rows `off .. off + k` of `M qddot - Jc' f + h`.
pub open spec fn partial_eom_s<T: Arith>(
    q: Block,
    f: Block,
    mass: Mat<T>,
    nle: Seq<T>,
    jc: Mat<T>,
    off: nat,
    k: nat,
) -> Aff<T> {
    aff_plus_s(
        aff_sub_s(
            coef_var_s(row_range_s(mass, off, k), q),
            coef_var_s(row_range_s(transpose_s(jc), off, k), f),
        ),
        slice_s(nle, off, k),
    )
}

/// `M^-1 S' tau + M^-1 Jc' f - M^-1 h`, by the factor `l` of `M`.
pub open spec fn force_qddot_s<T: Arith>(
    t: Block,
    f: Block,
    l: Seq<Seq<T>>,
    nle: Seq<T>,
    jc: Mat<T>,
    nv: nat,
) -> Aff<T> {
    aff_minus_s(
        aff_add_s(
            coef_var_s(chol_solve_mat_s(l, actuation_s::<T>(nv, t.size)), t),
            coef_var_s(chol_solve_mat_s(l, transpose_s(jc)), f),
        ),
        chol_solve_s(l, nle),
    )
}

pub open spec fn explicit_s<T: Arith>(mass: Mat<T>, nle: Seq<T>, jc: Mat<T>, na: nat) -> Dyn<T> {
    let nv = mass.nrows();
    let nf = jc.nrows();
    let n = nv + nf + na;
    let q = Block { offset: 0, size: nv, n };
    let f = Block { offset: nv, size: nf, n };
    let t = Block { offset: nv + nf, size: na, n };
    Dyn {
        formulation: Formulation::Explicit,
        layout: explicit_layout_s(nv, nf, na),
        qddot: var_affine_s(q),
        tau: var_affine_s(t),
        forces: f,
        physics: Some(soft_eq_s(eom_residual_s(q, f, t, mass, nle, jc))),
    }
}

pub open spec fn accel_s<T: Arith>(mass: Mat<T>, nle: Seq<T>, jc: Mat<T>, na: nat) -> Dyn<T> {
    let nv = mass.nrows();
    let nf = jc.nrows();
    let n = nv + nf;
    let n_base = (nv - na) as nat;
    let q = Block { offset: 0, size: nv, n };
    let f = Block { offset: nv, size: nf, n };
    Dyn {
        formulation: Formulation::AccelSpace,
        layout: accel_layout_s(nv, nf),
        qddot: var_affine_s(q),
        tau: partial_eom_s(q, f, mass, nle, jc, n_base, na),
        forces: f,
        physics: if n_base > 0 {
            Some(soft_eq_s(partial_eom_s(q, f, mass, nle, jc, 0, n_base)))
        } else {
            None
        },
    }
}

pub open spec fn force_s<T: Arith>(
    mass: Mat<T>,
    nle: Seq<T>,
    jc: Mat<T>,
    na: nat,
    l: Mat<T>,
) -> Dyn<T> {
    let nv = mass.nrows();
    let nf = jc.nrows();
    let n = na + nf;
    let t = Block { offset: 0, size: na, n };
    let f = Block { offset: na, size: nf, n };
    Dyn {
        formulation: Formulation::ForceSpace,
        layout: force_layout_s(na, nf),
        qddot: force_qddot_s(t, f, l.rows, nle, jc, nv),
        tau: var_affine_s(t),
        forces: f,
        physics: None,
    }
}

/// The context of one tick. Nothing where the force-space formulation meets a
/// mass matrix that does not factor.
pub open spec fn dynamics_s<T: DenseKernels>(
    formulation: Formulation,
    mass: Mat<T>,
    nle: Seq<T>,
    jc: Mat<T>,
    na: nat,
) -> Option<Dyn<T>> {
    match formulation {
        Formulation::Explicit => Some(explicit_s(mass, nle, jc, na)),
        Formulation::AccelSpace => Some(accel_s(mass, nle, jc, na)),
        Formulation::ForceSpace => match T::cholesky_s(mass) {
            Some(l) => Some(force_s(mass, nle, jc, na, l)),
            None => None,
        },
    }
}

/// The expressions have one row per quantity: `nv` accelerations, `nf` contact
/// forces and `na` torques.
pub open spec fn sizes_s<T>(d: Dyn<T>, nv: nat, nf: nat, na: nat) -> bool {
    d.qddot.out() == nv && d.forces.size == nf && d.tau.out() == na
}

/// The shapes agree, and the decision vector can be addressed.
pub open spec fn dynamics_ok_s<T>(mass: Mat<T>, nle: Seq<T>, jc: Mat<T>, na: nat) -> bool {
    let nv = mass.nrows();
    &&& mass.shaped(nv, nv)
    &&& nle.len() == nv
    &&& jc.shaped(jc.nrows(), nv)
    &&& na <= nv
    &&& nv + jc.nrows() + na <= usize::MAX
}

/// The dynamics context of one tick: the layout of the chosen formulation and
/// the expressions of acceleration and torque.
#[derive(Debug)]
pub struct Dynamics<S> {
    formulation: Formulation,
    layout: VarLayout,
    qddot: Affine<S>,
    tau: Affine<S>,
    forces: Var,
    physics: Option<Task<S>>,
}

impl<S> View for Dynamics<S> {
    type V = Dyn<S>;

    closed spec fn view(&self) -> Dyn<S> {
        Dyn {
            formulation: self.formulation,
            layout: self.layout@,
            qddot: self.qddot@,
            tau: self.tau@,
            forces: self.forces@,
            physics: match self.physics {
                Some(t) => Some(t@),
                None => None,
            },
        }
    }
}

/// The first block of a name is what a lookup finds.
proof fn lemma_lookup(l: Layout, name: Seq<char>, i: int)
    requires
        l.first_at(name, i),
    ensures
        l.has(name),
        l.var_s(name) == l.block(i),
{
    let k = choose|k: int| l.first_at(name, k);
    if k < i {
        assert(l.blocks[k].name != name);
    }
    if i < k {
        assert(l.blocks[i].name != name);
    }
}

/// The block names differ.
pub proof fn lemma_names()
    ensures
        "qddot"@ != "f"@,
        "tau"@ != "f"@,
        "qddot"@ != "tau"@,
{
    reveal_strlit("qddot");
    reveal_strlit("f");
    reveal_strlit("tau");
    assert("qddot"@[0] == 'q');
    assert("tau"@[0] == 't');
    assert("f"@[0] == 'f');
}

/// The blocks of the explicit layout.
pub proof fn lemma_explicit_layout(nv: nat, nf: nat, na: nat)
    ensures
        ({
            let l = explicit_layout_s(nv, nf, na);
            let n = nv + nf + na;
            &&& l.n == n
            &&& l.has("qddot"@) && l.var_s("qddot"@) == (Block { offset: 0, size: nv, n })
            &&& l.has("f"@) && l.var_s("f"@) == (Block { offset: nv, size: nf, n })
            &&& l.has("tau"@) && l.var_s("tau"@) == (Block { offset: nv + nf, size: na, n })
        }),
{
    lemma_names();
    reveal_with_fuel(offset_s, 4);
    let l = explicit_layout_s(nv, nf, na);
    lemma_lookup(l, "qddot"@, 0);
    lemma_lookup(l, "f"@, 1);
    lemma_lookup(l, "tau"@, 2);
}

/// The blocks of a layout of two.
pub proof fn lemma_pair_layout(name: Seq<char>, a: nat, nf: nat)
    requires
        name != "f"@,
    ensures
        ({
            let l = layout_s(seq![(name, a), ("f"@, nf)]);
            let n = a + nf;
            &&& l.n == n
            &&& l.has(name) && l.var_s(name) == (Block { offset: 0, size: a, n })
            &&& l.has("f"@) && l.var_s("f"@) == (Block { offset: a, size: nf, n })
        }),
{
    reveal_with_fuel(offset_s, 3);
    let l = layout_s(seq![(name, a), ("f"@, nf)]);
    lemma_lookup(l, name, 0);
    lemma_lookup(l, "f"@, 1);
}

impl<S: Backend> Dynamics<S> {
    fn explicit(mass: &Matrix<S>, nle: &Vec<S>, jc: &Matrix<S>, na: usize) -> (d: Dynamics<S>)
        requires
            dynamics_ok_s(mass@, nle@, jc@, na as nat),
        ensures
            d@ == explicit_s(mass@, nle@, jc@, na as nat),
            d@.wf(),
            sizes_s(d@, mass@.nrows(), jc@.nrows(), na as nat),
    {
        let nv = mass.nrows();
        let nf = jc.nrows();
        proof {
            lemma_explicit_layout(nv as nat, nf as nat, na as nat);
        }
        let b = VarLayout::builder().add("qddot", nv).add("f", nf).add("tau", na);
        assert(b@ =~= seq![("qddot"@, nv as nat), ("f"@, nf as nat), ("tau"@, na as nat)]);
        let layout = b.build();
        let q = layout.var("qddot");
        let f = layout.var("f");
        let t = layout.var("tau");
        let physics = equation_of_motion(&q, &f, &t, mass, nle, jc);
        Dynamics {
            formulation: Formulation::Explicit,
            qddot: q.affine(),
            tau: t.affine(),
            forces: f,
            physics: Some(physics),
            layout,
        }
    }

    fn accel(mass: &Matrix<S>, nle: &Vec<S>, jc: &Matrix<S>, na: usize) -> (d: Dynamics<S>)
        requires
            dynamics_ok_s(mass@, nle@, jc@, na as nat),
        ensures
            d@ == accel_s(mass@, nle@, jc@, na as nat),
            d@.wf(),
            sizes_s(d@, mass@.nrows(), jc@.nrows(), na as nat),
    {
        let nv = mass.nrows();
        let nf = jc.nrows();
        let n_base = nv - na;
        proof {
            lemma_names();
            lemma_pair_layout("qddot"@, nv as nat, nf as nat);
        }
        let b = VarLayout::builder().add("qddot", nv).add("f", nf);
        assert(b@ =~= seq![("qddot"@, nv as nat), ("f"@, nf as nat)]);
        let layout = b.build();
        let q = layout.var("qddot");
        let f = layout.var("f");
        let tau = partial_eom(&q, &f, mass, nle, jc, n_base, na);
        let physics = if n_base > 0 {
            Some(Task::soft_eq(&partial_eom(&q, &f, mass, nle, jc, 0, n_base)))
        } else {
            None
        };
        Dynamics {
            formulation: Formulation::AccelSpace,
            qddot: q.affine(),
            tau,
            forces: f,
            physics,
            layout,
        }
    }

    fn force(mass: &Matrix<S>, nle: &Vec<S>, jc: &Matrix<S>, na: usize, l: &Matrix<S>) -> (d:
        Dynamics<S>)
        requires
            dynamics_ok_s(mass@, nle@, jc@, na as nat),
            l@.shaped(mass@.nrows(), mass@.nrows()),
        ensures
            d@ == force_s(mass@, nle@, jc@, na as nat, l@),
            d@.wf(),
            sizes_s(d@, mass@.nrows(), jc@.nrows(), na as nat),
    {
        let nv = mass.nrows();
        let nf = jc.nrows();
        proof {
            lemma_names();
            lemma_pair_layout("tau"@, na as nat, nf as nat);
        }
        let b = VarLayout::builder().add("tau", na).add("f", nf);
        assert(b@ =~= seq![("tau"@, na as nat), ("f"@, nf as nat)]);
        let layout = b.build();
        let t = layout.var("tau");
        let f = layout.var("f");
        let minv_st = chol_solve_mat(l.rows_ref(), &actuation(nv, na));
        let minv_jct = chol_solve_mat(l.rows_ref(), &jc.transpose());
        let minv_h = chol_solve(l.rows_ref(), nle);
        let qddot = Affine::coef_var(&minv_st, &t).sum(
            &Affine::coef_var(&minv_jct, &f),
        ).minus_vec(&minv_h);
        Dynamics {
            formulation: Formulation::ForceSpace,
            qddot,
            tau: t.affine(),
            forces: f,
            physics: None,
            layout,
        }
    }

    /// The context of one tick, or `None` where the force-space formulation
    /// meets a mass matrix that does not factor.
    pub fn try_new(
        formulation: Formulation,
        mass: &Matrix<S>,
        nle: &Vec<S>,
        j_contact: &Matrix<S>,
        na: usize,
    ) -> (r: Option<Dynamics<S>>)
        requires
            dynamics_ok_s(mass@, nle@, j_contact@, na as nat),
        ensures
            match r {
                Some(d) => dynamics_s(formulation, mass@, nle@, j_contact@, na as nat) == Some(d@)
                    && d@.wf() && sizes_s(d@, mass@.nrows(), j_contact@.nrows(), na as nat),
                None => dynamics_s(formulation, mass@, nle@, j_contact@, na as nat) is None,
            },
    {
        match formulation {
            Formulation::Explicit => Some(Self::explicit(mass, nle, j_contact, na)),
            Formulation::AccelSpace => Some(Self::accel(mass, nle, j_contact, na)),
            Formulation::ForceSpace => match S::cholesky(mass) {
                Some(l) => Some(Self::force(mass, nle, j_contact, na, &l)),
                None => None,
            },
        }
    }

    /// The context of one tick.
    ///
    /// - `mass`: `M`, square. In the force-space formulation it must be
    ///   symmetric positive-definite, so that it factors; see
    ///   [`try_new`](Self::try_new).
    /// - `nle`: `h`, one entry per row of `M`.
    /// - `j_contact`: the stacked linear contact Jacobian.
    /// - `na`: the number of actuated joints, which are the last ones.
    pub fn new(
        formulation: Formulation,
        mass: &Matrix<S>,
        nle: &Vec<S>,
        j_contact: &Matrix<S>,
        na: usize,
    ) -> (d: Dynamics<S>)
        requires
            dynamics_ok_s(mass@, nle@, j_contact@, na as nat),
            formulation == Formulation::ForceSpace ==> S::cholesky_s(mass@) is Some,
        ensures
            dynamics_s(formulation, mass@, nle@, j_contact@, na as nat) == Some(d@),
            d@.wf(),
            sizes_s(d@, mass@.nrows(), j_contact@.nrows(), na as nat),
    {
        match Self::try_new(formulation, mass, nle, j_contact, na) {
            Some(d) => d,
            None => {
                assert(false);
                Self::explicit(mass, nle, j_contact, na)
            },
        }
    }
}

fn partial_eom<S: Scalar>(
    q: &Var,
    f: &Var,
    mass: &Matrix<S>,
    nle: &Vec<S>,
    jc: &Matrix<S>,
    off: usize,
    k: usize,
) -> (r: Affine<S>)
    requires
        mass@.shaped(nle@.len(), q@.size),
        jc@.shaped(f@.size, nle@.len()),
        f@.n == q@.n,
        off + k <= nle@.len(),
    ensures
        r@ == partial_eom_s(q@, f@, mass@, nle@, jc@, off as nat, k as nat),
        r@.wf(),
        r@.n() == q@.n,
        r@.out() == k,
{
    let m = Affine::coef_var(&mass.row_range(off, k), q);
    let j = Affine::coef_var(&jc.transpose().row_range(off, k), f);
    m.difference(&j).plus_vec(&slice(nle, off, k))
}

impl<S: Scalar> Clone for Dynamics<S> {
    fn clone(&self) -> (d: Dynamics<S>)
        ensures
            d@ == self@,
    {
        Dynamics {
            formulation: self.formulation,
            layout: self.layout.clone(),
            qddot: self.qddot.clone(),
            tau: self.tau.clone(),
            forces: self.forces,
            physics: self.dynamics_task(),
        }
    }
}

impl<S: Scalar> Dynamics<S> {
    pub fn formulation(&self) -> (r: Formulation)
        ensures
            r == self@.formulation,
    {
        self.formulation
    }

    /// The decision-vector layout of this formulation.
    pub fn layout(&self) -> (r: &VarLayout)
        ensures
            r@ == self@.layout,
    {
        &self.layout
    }

    /// The contact-force variable: a raw block in every formulation.
    pub fn forces(&self) -> (r: Var)
        ensures
            r@ == self@.forces,
    {
        self.forces
    }

    /// The acceleration as an expression of the decision vector.
    pub fn qddot(&self) -> (r: &Affine<S>)
        ensures
            r@ == self@.qddot,
    {
        &self.qddot
    }

    /// The torque as an expression of the decision vector.
    pub fn tau(&self) -> (r: &Affine<S>)
        ensures
            r@ == self@.tau,
    {
        &self.tau
    }

    /// The equality that this formulation still needs as a task: the whole
    /// equation of motion, its underactuated rows, or nothing.
    pub fn dynamics_task(&self) -> (r: Option<Task<S>>)
        ensures
            match r {
                Some(t) => self@.physics == Some(t@),
                None => self@.physics is None,
            },
    {
        match &self.physics {
            Some(t) => Some(t.clone()),
            None => None,
        }
    }

    /// All physical quantities at a solution vector.
    pub fn extract(&self, x: &Vec<S>) -> (r: Extracted<S>)
        requires
            self@.wf(),
            x@.len() == self@.layout.n,
        ensures
            r.qddot@ == eval_s(self@.qddot, x@),
            r.forces@ == slice_s(x@, self@.forces.offset, self@.forces.size),
            r.tau@ == eval_s(self@.tau, x@),
    {
        Extracted {
            qddot: self.qddot.eval(x),
            forces: self.forces.extract(x),
            tau: self.tau.eval(x),
        }
    }
}

} // verus!
