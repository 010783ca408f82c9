//! A catalogue of ready-made whole-body-control tasks, built from the matrices
//! that a rigid-body-dynamics engine produces (`M`, `h`, `J`, `J' v`).
//!
//! | function | task |
//! |---|---|
//! | [`equation_of_motion`] | floating-base dynamics |
//! | [`cartesian_acceleration`] | task-space acceleration, contact, centre of mass |
//! | [`track`] | posture, swing leg, force and torque regularisation |
//! | [`friction_pyramid`] | Coulomb friction of a point contact |
//! | [`patch_contact`] | friction, centre of pressure and torsion of a surface contact |
//! | [`centroidal_momentum`] | momentum rate |
//! | [`box_bound`] | symmetric limits |
//! | [`joint_limit_cbf`] | joint limits as a control barrier function |
//!
//! The layout of the decision vector is the caller's: the builders only touch
//! the expressions passed in.

use vstd::prelude::*;

use crate::affine::{
    aff_minus_s, aff_plus_s, aff_sub_s, coef_affine_s, coef_var_s, Aff, Affine, AsAffine, Block,
    Var,
};
use crate::dense::{
    tabulate, transpose_s, vcopy, vneg, vneg_s, vzeros, vzeros_s, Mat, Matrix,
};
use crate::scalar::{Arith, Scalar};
use crate::task::{in_range_s, le_s, soft_eq_s, Task, Tsk};

verus! {

pub open spec fn track_s<T: Arith>(e: Aff<T>, reference: Seq<T>) -> Tsk<T> {
    soft_eq_s(aff_minus_s(e, reference))
}

pub open spec fn box_bound_s<T: Arith>(e: Aff<T>, max: Seq<T>) -> Tsk<T> {
    in_range_s(vneg_s(max), e, max)
}

/// `J e + dj_v` driven to `accel_ref`.
pub open spec fn cartesian_s<T: Arith>(
    qddot: Aff<T>,
    j: Mat<T>,
    dj_v: Seq<T>,
    accel_ref: Seq<T>,
) -> Tsk<T> {
    track_s(aff_plus_s(coef_affine_s(j, qddot), dj_v), accel_ref)
}

/// `e` drawn to `target`.
pub open spec fn regularize_s<T: Arith>(e: Aff<T>, target: Seq<T>) -> Tsk<T> {
    track_s(e, target)
}

/// `J e + dj_v` held at zero.
pub open spec fn zero_contact_s<T: Arith>(qddot: Aff<T>, j: Mat<T>, dj_v: Seq<T>) -> Tsk<T> {
    cartesian_s(qddot, j, dj_v, vzeros_s(dj_v.len()))
}

/// The momentum rate `A_G e + dcmm_v` driven to `h_rate_ref`.
pub open spec fn centroidal_s<T: Arith>(
    qddot: Aff<T>,
    cmm: Mat<T>,
    dcmm_v: Seq<T>,
    h_rate_ref: Seq<T>,
) -> Tsk<T> {
    cartesian_s(qddot, cmm, dcmm_v, h_rate_ref)
}

/// The selection of the actuated joints: the last `na` of `nv` rows are the
/// identity.
pub open spec fn actuation_s<T: Arith>(nv: nat, na: nat) -> Mat<T> {
    Mat::build(
        nv,
        na,
        |i: int, j: int|
            if i == (nv - na) + j {
                T::one_s()
            } else {
                T::zero_s()
            },
    )
}

/// `M q'' - Jc' f - S' tau + h`.
pub open spec fn eom_residual_s<T: Arith>(
    qddot: Block,
    forces: Block,
    tau: Block,
    mass: Mat<T>,
    nle: Seq<T>,
    jc: Mat<T>,
) -> Aff<T> {
    aff_plus_s(
        aff_sub_s(
            aff_sub_s(coef_var_s(mass, qddot), coef_var_s(transpose_s(jc), forces)),
            coef_var_s(actuation_s::<T>(qddot.size, tau.size), tau),
        ),
        nle,
    )
}

/// The rows of the friction pyramid over a force `(x, y, z)`.
pub open spec fn pyramid_s<T: Arith>(mu: T) -> Mat<T> {
    let (o, i, m) = (T::zero_s(), T::one_s(), T::one_s().neg_s());
    Mat {
        cols: 3,
        rows: seq![
            seq![o, o, m],
            seq![i, o, mu.neg_s()],
            seq![m, o, mu.neg_s()],
            seq![o, i, mu.neg_s()],
            seq![o, m, mu.neg_s()],
        ],
    }
}

pub open spec fn friction_pyramid_s<T: Arith>(force: Aff<T>, mu: T) -> Tsk<T> {
    le_s(coef_affine_s(pyramid_s(mu), force), vzeros_s(5))
}

/// Drives an affine expression to a reference, as a least-squares cost.
pub fn track<S: Scalar, E: AsAffine<S>>(expr: &E, reference: &Vec<S>) -> (t: Task<S>)
    requires
        expr.affine_s().wf(),
        reference@.len() == expr.affine_s().out(),
    ensures
        t@ == track_s(expr.affine_s(), reference@),
        t@.wf(),
{
    Task::soft_eq(&expr.as_affine().minus_vec(reference))
}

/// Regularises a variable towards a target value: [`track`] under another
/// name.
pub fn regularize<S: Scalar, E: AsAffine<S>>(var: &E, target: &Vec<S>) -> (t: Task<S>)
    requires
        var.affine_s().wf(),
        target@.len() == var.affine_s().out(),
    ensures
        t@ == regularize_s(var.affine_s(), target@),
        t@.wf(),
{
    track(var, target)
}

/// The symmetric bound `-max <= var <= max` as a hard inequality.
pub fn box_bound<S: Scalar, E: AsAffine<S>>(var: &E, max: &Vec<S>) -> (t: Task<S>)
    requires
        var.affine_s().wf(),
        max@.len() == var.affine_s().out(),
    ensures
        t@ == box_bound_s(var.affine_s(), max@),
        t@.wf(),
{
    Task::in_range(&vneg(max), &var.as_affine(), max)
}

/// Task-space acceleration tracking: `J q'' + J' v` driven to `accel_ref`.
pub fn cartesian_acceleration<S: Scalar, E: AsAffine<S>>(
    qddot: &E,
    j: &Matrix<S>,
    dj_v: &Vec<S>,
    accel_ref: &Vec<S>,
) -> (t: Task<S>)
    requires
        qddot.affine_s().wf(),
        j@.shaped(dj_v@.len(), qddot.affine_s().out()),
        accel_ref@.len() == dj_v@.len(),
    ensures
        t@ == cartesian_s(qddot.affine_s(), j@, dj_v@, accel_ref@),
        t@.wf(),
{
    let expr = Affine::coef_affine(j, &qddot.as_affine()).plus_vec(dj_v);
    track(&expr, accel_ref)
}

/// A stance point holds still: [`cartesian_acceleration`] with zero reference.
pub fn zero_contact_acceleration<S: Scalar, E: AsAffine<S>>(
    qddot: &E,
    j: &Matrix<S>,
    dj_v: &Vec<S>,
) -> (t: Task<S>)
    requires
        qddot.affine_s().wf(),
        j@.shaped(dj_v@.len(), qddot.affine_s().out()),
    ensures
        t@ == zero_contact_s(qddot.affine_s(), j@, dj_v@),
        t@.wf(),
{
    cartesian_acceleration(qddot, j, dj_v, &vzeros(j.nrows()))
}

/// The selection of the actuated joints, transposed: `nv x na`.
pub fn actuation<S: Scalar>(nv: usize, na: usize) -> (m: Matrix<S>)
    requires
        na <= nv,
    ensures
        m@ == actuation_s::<S>(nv as nat, na as nat),
        m@.shaped(nv as nat, na as nat),
{
    let n_base = nv - na;
    let m = Matrix::tabulate(
        nv,
        na,
        |i: usize, j: usize| -> (v: S)
            requires
                n_base == nv - na,
                j < na,
                na <= nv,
            ensures
                v == (if i == n_base + j {
                    S::one_s()
                } else {
                    S::zero_s()
                })
            {
                if i == n_base + j {
                    S::one()
                } else {
                    S::zero()
                }
            },
    );
    proof {
        crate::dense::lemma_mat_eq(m@, actuation_s::<S>(nv as nat, na as nat));
    }
    m
}

/// The floating-base equation of motion with explicit torques,
/// `M q'' - Jc' f - S' tau = -h`, as an equality task of all `nv` rows. The
/// torques act on the last `tau.size()` joints.
pub fn equation_of_motion<S: Scalar>(
    qddot: &Var,
    forces: &Var,
    tau: &Var,
    mass: &Matrix<S>,
    nle: &Vec<S>,
    j_contact: &Matrix<S>,
) -> (t: Task<S>)
    requires
        mass@.shaped(qddot@.size, qddot@.size),
        nle@.len() == qddot@.size,
        j_contact@.shaped(forces@.size, qddot@.size),
        tau@.size <= qddot@.size,
        forces@.n == qddot@.n,
        tau@.n == qddot@.n,
    ensures
        t@ == soft_eq_s(eom_residual_s(qddot@, forces@, tau@, mass@, nle@, j_contact@)),
        t@.wf(),
{
    let s_t = actuation(qddot.size(), tau.size());
    let m_qddot = Affine::coef_var(mass, qddot);
    let jct_f = Affine::coef_var(&j_contact.transpose(), forces);
    let st_tau = Affine::coef_var(&s_t, tau);
    let e = m_qddot.difference(&jct_f).difference(&st_tau).plus_vec(nle);
    Task::soft_eq(&e)
}

/// The Coulomb friction pyramid of a point contact whose surface normal is +z:
/// `fz >= 0`, `|fx| <= mu fz`, `|fy| <= mu fz`, in five rows.
pub fn friction_pyramid<S: Scalar, E: AsAffine<S>>(force: &E, mu: S) -> (t: Task<S>)
    requires
        force.affine_s().wf(),
        force.affine_s().out() == 3,
    ensures
        t@ == friction_pyramid_s(force.affine_s(), mu),
        t@.wf(),
{
    let o = S::zero();
    let i = S::one();
    let m = i.negated();
    let k = mu.negated();
    let rows = vec![vec![o, o, m], vec![i, o, k], vec![m, o, k], vec![o, i, k], vec![o, m, k]];
    let c = Matrix::from_rows(3, rows);
    assert(c@.rows =~~= pyramid_s(mu).rows);
    let expr = Affine::coef_affine(&c, &force.as_affine());
    Task::le(&expr, &vzeros(5))
}

/// Momentum-rate tracking: `A_G q'' + A_G' v` driven to `h_rate_ref`.
pub fn centroidal_momentum<S: Scalar, E: AsAffine<S>>(
    qddot: &E,
    cmm: &Matrix<S>,
    dcmm_v: &Vec<S>,
    h_rate_ref: &Vec<S>,
) -> (t: Task<S>)
    requires
        qddot.affine_s().wf(),
        cmm@.shaped(dcmm_v@.len(), qddot.affine_s().out()),
        h_rate_ref@.len() == dcmm_v@.len(),
    ensures
        t@ == centroidal_s(qddot.affine_s(), cmm@, dcmm_v@, h_rate_ref@),
        t@.wf(),
{
    cartesian_acceleration(qddot, cmm, dcmm_v, h_rate_ref)
}

/// Per-joint gains and limits of [`joint_limit_cbf`].
#[derive(Debug)]
pub struct JointLimitCbf<S> {
    /// Lower position limit.
    pub q_min: Vec<S>,
    /// Upper position limit.
    pub q_max: Vec<S>,
    /// Velocity magnitude limit.
    pub v_max: Vec<S>,
    /// Acceleration magnitude limit: the final clamp.
    pub a_max: Vec<S>,
    /// First pole of the position barrier.
    pub alpha1: Vec<S>,
    /// Second pole of the position barrier.
    pub alpha2: Vec<S>,
    /// Gain of the velocity barrier.
    pub alpha3: Vec<S>,
}

impl<S> JointLimitCbf<S> {
    /// One entry per joint in every field.
    pub open spec fn wf(self, n: nat) -> bool {
        &&& self.q_min@.len() == n
        &&& self.q_max@.len() == n
        &&& self.v_max@.len() == n
        &&& self.a_max@.len() == n
        &&& self.alpha1@.len() == n
        &&& self.alpha2@.len() == n
        &&& self.alpha3@.len() == n
    }
}

impl<S: Scalar> Clone for JointLimitCbf<S> {
    fn clone(&self) -> (r: JointLimitCbf<S>)
        ensures
            r.q_min@ == self.q_min@,
            r.q_max@ == self.q_max@,
            r.v_max@ == self.v_max@,
            r.a_max@ == self.a_max@,
            r.alpha1@ == self.alpha1@,
            r.alpha2@ == self.alpha2@,
            r.alpha3@ == self.alpha3@,
    {
        JointLimitCbf {
            q_min: vcopy(&self.q_min),
            q_max: vcopy(&self.q_max),
            v_max: vcopy(&self.v_max),
            a_max: vcopy(&self.a_max),
            alpha1: vcopy(&self.alpha1),
            alpha2: vcopy(&self.alpha2),
            alpha3: vcopy(&self.alpha3),
        }
    }
}

/// The limits of one joint.
pub struct JointLimit<T> {
    pub q_min: T,
    pub q_max: T,
    pub v_max: T,
    pub a_max: T,
    pub alpha1: T,
    pub alpha2: T,
    pub alpha3: T,
}

/// The limits of joint `i`.
pub open spec fn joint_s<T>(l: JointLimitCbf<T>, i: int) -> JointLimit<T> {
    JointLimit {
        q_min: l.q_min@[i],
        q_max: l.q_max@[i],
        v_max: l.v_max@[i],
        a_max: l.a_max@[i],
        alpha1: l.alpha1@[i],
        alpha2: l.alpha2@[i],
        alpha3: l.alpha3@[i],
    }
}

/// The position barrier towards the limit `q_lim`:
/// `-(alpha1 + alpha2) v + alpha1 alpha2 (q_lim - q)`.
pub open spec fn ecbf_s<T: Arith>(j: JointLimit<T>, q_lim: T, q: T, v: T) -> T {
    j.alpha1.add_s(j.alpha2).neg_s().mul_s(v).add_s(
        j.alpha1.mul_s(j.alpha2).mul_s(q_lim.sub_s(q)),
    )
}

/// The upper barriers and the acceleration limit.
pub open spec fn cbf_upper_s<T: Arith>(j: JointLimit<T>, q: T, v: T) -> T {
    ecbf_s(j, j.q_max, q, v).min_s(j.alpha3.mul_s(j.v_max.sub_s(v))).min_s(j.a_max)
}

/// The lower barriers and the acceleration limit.
pub open spec fn cbf_lower_s<T: Arith>(j: JointLimit<T>, q: T, v: T) -> T {
    ecbf_s(j, j.q_min, q, v).max_s(j.alpha3.mul_s(j.v_max.neg_s().sub_s(v))).max_s(
        j.a_max.neg_s(),
    )
}

/// The bounds `(lb, ub)` on the acceleration. Crossed barriers are swapped.
pub open spec fn cbf_bounds_s<T: Arith>(j: JointLimit<T>, q: T, v: T) -> (T, T) {
    let u = cbf_upper_s(j, q, v);
    let l = cbf_lower_s(j, q, v);
    let (u, l) = if u.lt_s(l) {
        (l, u)
    } else {
        (u, l)
    };
    (l.max_s(j.a_max.neg_s()), u.min_s(j.a_max))
}

pub open spec fn cbf_lb_s<T: Arith>(l: JointLimitCbf<T>, q: Seq<T>, v: Seq<T>) -> Seq<T> {
    Seq::new(q.len(), |i: int| cbf_bounds_s(joint_s(l, i), q[i], v[i]).0)
}

pub open spec fn cbf_ub_s<T: Arith>(l: JointLimitCbf<T>, q: Seq<T>, v: Seq<T>) -> Seq<T> {
    Seq::new(q.len(), |i: int| cbf_bounds_s(joint_s(l, i), q[i], v[i]).1)
}

/// The acceleration of every joint inside its bounds.
pub open spec fn joint_limit_cbf_s<T: Arith>(
    qddot: Aff<T>,
    q: Seq<T>,
    v: Seq<T>,
    limits: JointLimitCbf<T>,
) -> Tsk<T> {
    in_range_s(cbf_lb_s(limits, q, v), qddot, cbf_ub_s(limits, q, v))
}

/// The acceleration bounds of one joint.
pub fn joint_bounds<S: Scalar>(j: &JointLimit<S>, q: S, v: S) -> (r: (S, S))
    ensures
        r == cbf_bounds_s(*j, q, v),
{
    let damping = j.alpha1.plus(j.alpha2).negated().times(v);
    let stiff = j.alpha1.times(j.alpha2);
    let upper_ecbf = damping.plus(stiff.times(j.q_max.minus(q)));
    let lower_ecbf = damping.plus(stiff.times(j.q_min.minus(q)));
    let u = upper_ecbf.smaller(j.alpha3.times(j.v_max.minus(v))).smaller(j.a_max);
    let l = lower_ecbf.larger(j.alpha3.times(j.v_max.negated().minus(v))).larger(
        j.a_max.negated(),
    );
    let (u, l) = if u.less_than(l) {
        (l, u)
    } else {
        (u, l)
    };
    (l.larger(j.a_max.negated()), u.smaller(j.a_max))
}

fn joint<S: Scalar>(l: &JointLimitCbf<S>, i: usize) -> (r: JointLimit<S>)
    requires
        l.wf(l.q_min@.len()),
        i < l.q_min@.len(),
    ensures
        r == joint_s(*l, i as int),
{
    JointLimit {
        q_min: l.q_min[i],
        q_max: l.q_max[i],
        v_max: l.v_max[i],
        a_max: l.a_max[i],
        alpha1: l.alpha1[i],
        alpha2: l.alpha2[i],
        alpha3: l.alpha3[i],
    }
}

/// Joint position and velocity limits as a control barrier function on the
/// acceleration: the second-order position barriers, the first-order velocity
/// barrier and the acceleration limit, intersected. Barriers that cross are
/// swapped, so that the interval is never empty.
pub fn joint_limit_cbf<S: Scalar, E: AsAffine<S>>(
    qddot: &E,
    q: &Vec<S>,
    v: &Vec<S>,
    limits: &JointLimitCbf<S>,
) -> (t: Task<S>)
    requires
        qddot.affine_s().wf(),
        qddot.affine_s().out() == q@.len(),
        v@.len() == q@.len(),
        limits.wf(q@.len()),
    ensures
        t@ == joint_limit_cbf_s(qddot.affine_s(), q@, v@, *limits),
        t@.wf(),
{
    let lb = tabulate(
        q.len(),
        |i: usize| -> (r: S)
            requires
                limits.wf(q@.len()),
                v@.len() == q@.len(),
                i < q@.len(),
            ensures
                r == cbf_bounds_s(joint_s(*limits, i as int), q@[i as int], v@[i as int]).0
            { joint_bounds(&joint(limits, i), q[i], v[i]).0 },
    );
    let ub = tabulate(
        q.len(),
        |i: usize| -> (r: S)
            requires
                limits.wf(q@.len()),
                v@.len() == q@.len(),
                i < q@.len(),
            ensures
                r == cbf_bounds_s(joint_s(*limits, i as int), q@[i as int], v@[i as int]).1
            { joint_bounds(&joint(limits, i), q[i], v[i]).1 },
    );
    assert(lb@ =~= cbf_lb_s(*limits, q@, v@));
    assert(ub@ =~= cbf_ub_s(*limits, q@, v@));
    Task::in_range(&lb, &qddot.as_affine(), &ub)
}

/// Parameters of a rectangular surface contact.
#[derive(Debug)]
pub struct ContactPatch<S> {
    /// Coulomb friction coefficient.
    pub mu: S,
    /// Half-lengths of the support rectangle along x and y.
    pub cop_half: (S, S),
    /// Torsional friction coefficient.
    pub mu_torsion: S,
    /// Upper bound on the normal force.
    pub f_max: S,
}

impl<S: Copy> Clone for ContactPatch<S> {
    fn clone(&self) -> (r: ContactPatch<S>)
        ensures
            r == *self,
    {
        ContactPatch {
            mu: self.mu,
            cop_half: (self.cop_half.0, self.cop_half.1),
            mu_torsion: self.mu_torsion,
            f_max: self.f_max,
        }
    }
}

impl<S: Copy> Copy for ContactPatch<S> {

}

/// The wrench component that row `i` bounds. Components are numbered
/// `mx, my, mz, fx, fy, fz` from zero.
pub open spec fn patch_axis_s(i: int) -> int {
    if i < 2 {
        5
    } else if i < 4 {
        3
    } else if i < 6 {
        4
    } else if i < 8 {
        0
    } else if i < 10 {
        1
    } else {
        2
    }
}

/// The multiple of the normal force that row `i` allows.
pub open spec fn patch_gain_s<T>(p: ContactPatch<T>, i: int) -> T {
    if i < 6 {
        p.mu
    } else if i < 8 {
        p.cop_half.1
    } else if i < 10 {
        p.cop_half.0
    } else {
        p.mu_torsion
    }
}

/// Row `i` bounds the component from above, else from below.
pub open spec fn patch_above_s(i: int) -> bool {
    i == 1 || i >= 2 && i % 2 == 0
}

/// The twelve rows of a surface contact over a wrench `[m; f]`.
pub open spec fn patch_s<T: Arith>(p: ContactPatch<T>) -> Mat<T> {
    Mat::build(
        12,
        6,
        |i: int, j: int|
            if j == patch_axis_s(i) {
                if patch_above_s(i) {
                    T::one_s()
                } else {
                    T::one_s().neg_s()
                }
            } else if j == 5 {
                patch_gain_s(p, i).neg_s()
            } else {
                T::zero_s()
            },
    )
}

/// The bounds of those rows: the cap on the normal force, else zero.
pub open spec fn patch_bound_s<T: Arith>(p: ContactPatch<T>) -> Seq<T> {
    Seq::new(
        12,
        |i: int|
            if i == 1 {
                p.f_max
            } else {
                T::zero_s()
            },
    )
}

pub open spec fn patch_contact_s<T: Arith>(wrench: Aff<T>, p: ContactPatch<T>) -> Tsk<T> {
    le_s(coef_affine_s(patch_s(p), wrench), patch_bound_s(p))
}

fn patch_entry<S: Scalar>(p: &ContactPatch<S>, i: usize, j: usize) -> (v: S)
    requires
        i < 12,
        j < 6,
    ensures
        v == patch_s(*p).at(i as int, j as int),
{
    let axis: usize = if i < 2 {
        5
    } else if i < 4 {
        3
    } else if i < 6 {
        4
    } else if i < 8 {
        0
    } else if i < 10 {
        1
    } else {
        2
    };
    if j == axis {
        if i == 1 || (i >= 2 && i % 2 == 0) {
            S::one()
        } else {
            S::one().negated()
        }
    } else if j == 5 {
        let gain = if i < 6 {
            p.mu
        } else if i < 8 {
            p.cop_half.1
        } else if i < 10 {
            p.cop_half.0
        } else {
            p.mu_torsion
        };
        gain.negated()
    } else {
        S::zero()
    }
}

/// The twelve inequality rows of a rectangular surface contact over a wrench
/// `[m; f]` whose surface normal is +z: `0 <= fz <= f_max`, `|fx|, |fy| <= mu
/// fz`, `|mx| <= Ly fz`, `|my| <= Lx fz`, `|mz| <= mu_torsion fz`.
pub fn patch_contact<S: Scalar, E: AsAffine<S>>(wrench: &E, patch: &ContactPatch<S>) -> (t: Task<S>)
    requires
        wrench.affine_s().wf(),
        wrench.affine_s().out() == 6,
    ensures
        t@ == patch_contact_s(wrench.affine_s(), *patch),
        t@.wf(),
{
    let c = Matrix::tabulate(
        12,
        6,
        |i: usize, j: usize| -> (v: S)
            requires
                i < 12,
                j < 6,
            ensures
                v == patch_s(*patch).at(i as int, j as int)
            { patch_entry(patch, i, j) },
    );
    proof {
        crate::dense::lemma_mat_eq(c@, patch_s(*patch));
    }
    let f = tabulate(
        12,
        |i: usize| -> (v: S)
            ensures
                v == (if i == 1 {
                    patch.f_max
                } else {
                    S::zero_s()
                })
            {
                if i == 1 {
                    patch.f_max
                } else {
                    S::zero()
                }
            },
    );
    assert(f@ =~= patch_bound_s(*patch));
    let expr = Affine::coef_affine(&c, &wrench.as_affine());
    Task::le(&expr, &f)
}

} // verus!
