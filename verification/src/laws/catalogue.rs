//! Laws of the task catalogue.

use vstd::prelude::*;

use crate::affine::{
    aff_minus_s, aff_plus_s, aff_sub_s, coef_affine_s, coef_var_s, eval_s, Aff, Block,
};
use crate::dense::{
    dot_s, dot_upto_s, mvec_s, norm_sq_s, slice_s, transpose_s, vadd_s, vneg_s, vsub_s, vzeros_s,
    Mat,
};
use crate::exact::{distrib, lemma_dot_single, lemma_dot_zero, lemma_vsub_zero};
use crate::laws::affine::{
    law_coefficient_of_expression, law_coefficient_of_variable, law_shift_of_expression,
    law_sum_of_expressions,
};
use crate::laws::task::{
    below, cost_s, keeps, law_in_range, law_le, law_soft_eq_residual, residual_s,
};
use crate::task::soft_eq_s;
use crate::tasks::{
    actuation_s, box_bound_s, cartesian_s, cbf_bounds_s, cbf_lb_s, cbf_lower_s, cbf_ub_s,
    cbf_upper_s, centroidal_s, eom_residual_s, friction_pyramid_s, joint_limit_cbf_s, patch_above_s,
    patch_axis_s, patch_bound_s, patch_contact_s, patch_gain_s, patch_s, pyramid_s, regularize_s,
    track_s, zero_contact_s, ContactPatch, JointLimit, JointLimitCbf,
};

verus! {

/// Tracking has no residual exactly where the expression is at its reference.
pub proof fn law_track(e: Aff<real>, reference: Seq<real>, x: Seq<real>)
    requires
        e.wf(),
        reference.len() == e.out(),
        x.len() == e.n(),
    ensures
        residual_s(track_s(e, reference), x) == vsub_s(eval_s(e, x), reference),
        residual_s(track_s(e, reference), x) == vzeros_s::<real>(e.out()) <==> eval_s(e, x)
            == reference,
        track_s(e, reference).f.len() == 0,
{
    law_soft_eq_residual(aff_minus_s(e, reference), x);
    law_shift_of_expression(e, reference, x);
    lemma_vsub_zero(eval_s(e, x), reference);
}

/// A box bound is kept exactly where every entry is at most its bound in
/// magnitude.
pub proof fn law_box_bound(e: Aff<real>, max: Seq<real>, x: Seq<real>)
    requires
        e.wf(),
        max.len() == e.out(),
        x.len() == e.n(),
    ensures
        keeps(box_bound_s(e, max), x) <==> (forall|i: int|
            0 <= i < max.len() ==> -max[i] <= #[trigger] eval_s(e, x)[i] <= max[i]),
        box_bound_s(e, max).b.len() == 0,
{
    let y = eval_s(e, x);
    let neg = vneg_s(max);
    law_in_range(neg, e, max, x);
    if below(neg, y) && below(y, max) {
        assert forall|i: int| 0 <= i < max.len() implies -max[i] <= #[trigger] y[i] <= max[i] by {
            assert(neg[i] <= y[i]);
        }
    }
    if forall|i: int| 0 <= i < max.len() ==> -max[i] <= #[trigger] y[i] <= max[i] {
        assert forall|i: int| 0 <= i < neg.len() implies #[trigger] neg[i] <= y[i] by {
            assert(-max[i] <= y[i]);
        }
        assert forall|i: int| 0 <= i < y.len() implies #[trigger] y[i] <= max[i] by {}
    }
}

/// The residual of a Cartesian task is the task acceleration less its
/// reference.
pub proof fn law_cartesian(
    qddot: Aff<real>,
    j: Mat<real>,
    dj_v: Seq<real>,
    accel_ref: Seq<real>,
    x: Seq<real>,
)
    requires
        qddot.wf(),
        j.shaped(dj_v.len(), qddot.out()),
        accel_ref.len() == dj_v.len(),
        x.len() == qddot.n(),
    ensures
        residual_s(cartesian_s(qddot, j, dj_v, accel_ref), x) == vsub_s(
            vadd_s(mvec_s(j, eval_s(qddot, x)), dj_v),
            accel_ref,
        ),
        cartesian_s(qddot, j, dj_v, accel_ref).f.len() == 0,
{
    let a = coef_affine_s(j, qddot);
    law_coefficient_of_expression(j, qddot, x);
    law_shift_of_expression(a, dj_v, x);
    law_track(aff_plus_s(a, dj_v), accel_ref, x);
}

/// The residual of the equation-of-motion task is
/// `M qddot - Jc' f - S' tau + h` at the blocks of the decision vector.
pub proof fn law_equation_of_motion(
    qddot: Block,
    forces: Block,
    tau: Block,
    mass: Mat<real>,
    nle: Seq<real>,
    jc: Mat<real>,
    x: Seq<real>,
)
    requires
        qddot.wf(),
        forces.wf(),
        tau.wf(),
        forces.n == qddot.n,
        tau.n == qddot.n,
        x.len() == qddot.n,
        mass.shaped(qddot.size, qddot.size),
        nle.len() == qddot.size,
        jc.shaped(forces.size, qddot.size),
        tau.size <= qddot.size,
    ensures
        residual_s(soft_eq_s(eom_residual_s(qddot, forces, tau, mass, nle, jc)), x) == vadd_s(
            vsub_s(
                vsub_s(
                    mvec_s(mass, slice_s(x, qddot.offset, qddot.size)),
                    mvec_s(transpose_s(jc), slice_s(x, forces.offset, forces.size)),
                ),
                mvec_s(
                    actuation_s::<real>(qddot.size, tau.size),
                    slice_s(x, tau.offset, tau.size),
                ),
            ),
            nle,
        ),
        soft_eq_s(eom_residual_s(qddot, forces, tau, mass, nle, jc)).f.len() == 0,
{
    let s_t = actuation_s::<real>(qddot.size, tau.size);
    let a = coef_var_s(mass, qddot);
    let b = coef_var_s(transpose_s(jc), forces);
    let c = coef_var_s(s_t, tau);
    law_coefficient_of_variable(mass, qddot, x);
    law_coefficient_of_variable(transpose_s(jc), forces, x);
    law_coefficient_of_variable(s_t, tau, x);
    law_sum_of_expressions(a, b, x);
    law_sum_of_expressions(aff_sub_s(a, b), c, x);
    law_shift_of_expression(aff_sub_s(aff_sub_s(a, b), c), nle, x);
    law_soft_eq_residual(eom_residual_s(qddot, forces, tau, mass, nle, jc), x);
}

/// The product of a row of three with a vector of three.
proof fn lemma_dot3(a: Seq<real>, b: Seq<real>)
    requires
        a.len() == 3,
    ensures
        dot_s(a, b) == a[0] * b[0] + a[1] * b[1] + a[2] * b[2],
{
    reveal_with_fuel(dot_upto_s, 4);
}

proof fn units(a: real)
    ensures
        0real * a == 0real,
        1real * a == a,
        (-1real) * a == -a,
{
    assert(0real * a == 0real) by (nonlinear_arith);
    assert(1real * a == a) by (nonlinear_arith);
    assert((-1real) * a == -a) by (nonlinear_arith);
}

/// The friction pyramid is kept exactly by the forces that push and whose
/// tangential parts are within the friction coefficient of the normal part.
pub proof fn law_friction_pyramid(force: Aff<real>, mu: real, x: Seq<real>)
    requires
        force.wf(),
        force.out() == 3,
        x.len() == force.n(),
    ensures
        keeps(friction_pyramid_s(force, mu), x) <==> ({
            let f = eval_s(force, x);
            &&& 0real <= f[2]
            &&& -(mu * f[2]) <= f[0] <= mu * f[2]
            &&& -(mu * f[2]) <= f[1] <= mu * f[2]
        }),
        friction_pyramid_s(force, mu).b.len() == 0,
{
    let f = eval_s(force, x);
    let c = pyramid_s(mu);
    let y = mvec_s(c, f);
    law_coefficient_of_expression(c, force, x);
    law_le(coef_affine_s(c, force), vzeros_s(5), x);
    units(f[0]);
    units(f[1]);
    units(f[2]);
    let z = f[2];
    assert((-mu) * z == -(mu * z)) by (nonlinear_arith);
    lemma_dot3(c.rows[0], f);
    lemma_dot3(c.rows[1], f);
    lemma_dot3(c.rows[2], f);
    lemma_dot3(c.rows[3], f);
    lemma_dot3(c.rows[4], f);
    assert(y[0] == -f[2]);
    assert(y[1] == f[0] - mu * f[2]);
    assert(y[2] == -f[0] - mu * f[2]);
    assert(y[3] == f[1] - mu * f[2]);
    assert(y[4] == -f[1] - mu * f[2]);
    let zero = vzeros_s::<real>(5);
    if below(y, zero) {
        assert(y[0] <= zero[0] && y[1] <= zero[1] && y[2] <= zero[2] && y[3] <= zero[3] && y[4]
            <= zero[4]);
    }
    if 0real <= f[2] && -(mu * f[2]) <= f[0] <= mu * f[2] && -(mu * f[2]) <= f[1] <= mu * f[2] {
        assert forall|i: int| 0 <= i < y.len() implies #[trigger] y[i] <= zero[i] by {
            assert(i == 0 || i == 1 || i == 2 || i == 3 || i == 4);
        }
    }
}

/// The product of a row of six with a vector of six.
proof fn lemma_dot6(a: Seq<real>, b: Seq<real>)
    requires
        a.len() == 6,
    ensures
        dot_s(a, b) == a[0] * b[0] + a[1] * b[1] + a[2] * b[2] + a[3] * b[3] + a[4] * b[4] + a[5]
            * b[5],
{
    reveal_with_fuel(dot_upto_s, 7);
}

/// Row `i` of a surface contact: the bounded component, against the gain times
/// the normal force.
proof fn lemma_patch_row(p: ContactPatch<real>, w: Seq<real>, i: int)
    requires
        0 <= i < 12,
        w.len() == 6,
    ensures
        mvec_s(patch_s(p), w)[i] == (if i == 0 {
            -w[5]
        } else if i == 1 {
            w[5]
        } else if patch_above_s(i) {
            w[patch_axis_s(i)] - patch_gain_s(p, i) * w[5]
        } else {
            -w[patch_axis_s(i)] - patch_gain_s(p, i) * w[5]
        }),
{
    let c = patch_s(p);
    lemma_dot6(c.rows[i], w);
    units(w[0]);
    units(w[1]);
    units(w[2]);
    units(w[3]);
    units(w[4]);
    units(w[5]);
    let (g, z) = (patch_gain_s(p, i), w[5]);
    assert((-g) * z == -(g * z)) by (nonlinear_arith);
}

/// `|a| <= b`.
pub open spec fn within(a: real, b: real) -> bool {
    -b <= a <= b
}

/// A surface contact is kept exactly by the wrenches `[m; f]` that push within
/// the cap, stay within Coulomb and torsional friction, and have their centre
/// of pressure inside the patch.
pub proof fn law_patch_contact(wrench: Aff<real>, p: ContactPatch<real>, x: Seq<real>)
    requires
        wrench.wf(),
        wrench.out() == 6,
        x.len() == wrench.n(),
    ensures
        keeps(patch_contact_s(wrench, p), x) <==> ({
            let w = eval_s(wrench, x);
            &&& 0real <= w[5] <= p.f_max
            &&& within(w[3], p.mu * w[5])
            &&& within(w[4], p.mu * w[5])
            &&& within(w[0], p.cop_half.1 * w[5])
            &&& within(w[1], p.cop_half.0 * w[5])
            &&& within(w[2], p.mu_torsion * w[5])
        }),
        patch_contact_s(wrench, p).b.len() == 0,
{
    let w = eval_s(wrench, x);
    let c = patch_s(p);
    let y = mvec_s(c, w);
    let b = patch_bound_s(p);
    law_coefficient_of_expression(c, wrench, x);
    law_le(coef_affine_s(c, wrench), b, x);
    lemma_patch_row(p, w, 0);
    lemma_patch_row(p, w, 1);
    lemma_patch_row(p, w, 2);
    lemma_patch_row(p, w, 3);
    lemma_patch_row(p, w, 4);
    lemma_patch_row(p, w, 5);
    lemma_patch_row(p, w, 6);
    lemma_patch_row(p, w, 7);
    lemma_patch_row(p, w, 8);
    lemma_patch_row(p, w, 9);
    lemma_patch_row(p, w, 10);
    lemma_patch_row(p, w, 11);
    if below(y, b) {
        assert(y[0] <= b[0] && y[1] <= b[1] && y[2] <= b[2] && y[3] <= b[3]);
        assert(y[4] <= b[4] && y[5] <= b[5] && y[6] <= b[6] && y[7] <= b[7]);
        assert(y[8] <= b[8] && y[9] <= b[9] && y[10] <= b[10] && y[11] <= b[11]);
    }
    if 0real <= w[5] <= p.f_max && within(w[3], p.mu * w[5]) && within(w[4], p.mu * w[5])
        && within(w[0], p.cop_half.1 * w[5]) && within(w[1], p.cop_half.0 * w[5]) && within(
        w[2],
        p.mu_torsion * w[5],
    ) {
        assert forall|i: int| 0 <= i < y.len() implies #[trigger] y[i] <= b[i] by {
            assert(i == 0 || i == 1 || i == 2 || i == 3 || i == 4 || i == 5 || i == 6 || i == 7
                || i == 8 || i == 9 || i == 10 || i == 11);
        }
    }
}

/// The acceleration interval of a joint is never empty and never leaves the
/// acceleration limit.
pub proof fn law_cbf_interval(j: JointLimit<real>, q: real, v: real)
    requires
        j.a_max >= 0real,
    ensures
        ({
            let (lb, ub) = cbf_bounds_s(j, q, v);
            -j.a_max <= lb && lb <= ub && ub <= j.a_max
        }),
{
}

/// Where the barriers leave room, an acceleration is inside the interval
/// exactly if it keeps every barrier and the acceleration limit.
pub proof fn law_cbf_barriers(j: JointLimit<real>, q: real, v: real, a: real)
    requires
        cbf_lower_s(j, q, v) <= cbf_upper_s(j, q, v),
    ensures
        ({
            let (lb, ub) = cbf_bounds_s(j, q, v);
            lb <= a <= ub <==> {
                &&& a <= -(j.alpha1 + j.alpha2) * v + j.alpha1 * j.alpha2 * (j.q_max - q)
                &&& a >= -(j.alpha1 + j.alpha2) * v + j.alpha1 * j.alpha2 * (j.q_min - q)
                &&& a <= j.alpha3 * (j.v_max - v)
                &&& a >= j.alpha3 * (-j.v_max - v)
                &&& -j.a_max <= a <= j.a_max
            }
        }),
{
}

/// Where `u` is the tightest of the upper barriers and `l` of the lower ones, the
/// interval is from `l` to `u`; where they cross, it is from `u` to `l`, cut to
/// the acceleration limit.
pub proof fn law_cbf_exact(j: JointLimit<real>, q: real, v: real, u: real, l: real)
    requires
        ({
            let (s, k) = (j.alpha1 + j.alpha2, j.alpha1 * j.alpha2);
            let (p, w) = (-s * v + k * (j.q_max - q), j.alpha3 * (j.v_max - v));
            &&& u <= p && u <= w && u <= j.a_max
            &&& u == p || u == w || u == j.a_max
        }),
        ({
            let (s, k) = (j.alpha1 + j.alpha2, j.alpha1 * j.alpha2);
            let (p, w) = (-s * v + k * (j.q_min - q), j.alpha3 * (-j.v_max - v));
            &&& l >= p && l >= w && l >= -j.a_max
            &&& l == p || l == w || l == -j.a_max
        }),
    ensures
        l <= u ==> cbf_bounds_s(j, q, v) == (l, u),
        u < l ==> cbf_bounds_s(j, q, v) == (
            if u < -j.a_max {
                -j.a_max
            } else {
                u
            },
            if l > j.a_max {
                j.a_max
            } else {
                l
            },
        ),
{
}

/// The joint as seen in a mirror: the position limits negated and exchanged.
pub open spec fn mirrored(j: JointLimit<real>) -> JointLimit<real> {
    JointLimit {
        q_min: -j.q_max,
        q_max: -j.q_min,
        v_max: j.v_max,
        a_max: j.a_max,
        alpha1: j.alpha1,
        alpha2: j.alpha2,
        alpha3: j.alpha3,
    }
}

/// The bounds are odd: the mirrored joint has the mirrored interval.
pub proof fn law_cbf_mirror(j: JointLimit<real>, q: real, v: real)
    ensures
        ({
            let (lb, ub) = cbf_bounds_s(j, q, v);
            cbf_bounds_s(mirrored(j), -q, -v) == (-ub, -lb)
        }),
{
    let (s, k, r) = (j.alpha1 + j.alpha2, j.alpha1 * j.alpha2, j.alpha3);
    distrib(-s, v, 0real);
    distrib(k, j.q_max - q, 0real);
    distrib(k, j.q_min - q, 0real);
    distrib(r, j.v_max - v, 0real);
    distrib(r, -j.v_max - v, 0real);
    assert(-j.q_max - (-q) == -(j.q_max - q));
    assert(-j.q_min - (-q) == -(j.q_min - q));
    assert(j.v_max - (-v) == -(-j.v_max - v));
    assert(-j.v_max - (-v) == -(j.v_max - v));
}

/// The joint-limit task is kept exactly by the accelerations that stay inside
/// the interval of every joint, each with its own limits, position and velocity.
pub proof fn law_joint_limit_cbf(
    qddot: Aff<real>,
    q: Seq<real>,
    v: Seq<real>,
    limits: JointLimitCbf<real>,
    x: Seq<real>,
)
    requires
        qddot.wf(),
        qddot.out() == q.len(),
        v.len() == q.len(),
        x.len() == qddot.n(),
    ensures
        keeps(joint_limit_cbf_s(qddot, q, v, limits), x) <==> forall|i: int|
            0 <= i < q.len() ==> {
                let j = JointLimit {
                    q_min: limits.q_min@[i],
                    q_max: limits.q_max@[i],
                    v_max: limits.v_max@[i],
                    a_max: limits.a_max@[i],
                    alpha1: limits.alpha1@[i],
                    alpha2: limits.alpha2@[i],
                    alpha3: limits.alpha3@[i],
                };
                let (lb, ub) = cbf_bounds_s(j, q[i], v[i]);
                lb <= #[trigger] eval_s(qddot, x)[i] <= ub
            },
        joint_limit_cbf_s(qddot, q, v, limits).b.len() == 0,
{
    let (lb, ub, y) = (cbf_lb_s(limits, q, v), cbf_ub_s(limits, q, v), eval_s(qddot, x));
    law_in_range(lb, qddot, ub, x);
    if below(lb, y) && below(y, ub) {
        assert forall|i: int| 0 <= i < q.len() implies lb[i] <= #[trigger] y[i] <= ub[i] by {
            assert(lb[i] <= y[i]);
        }
    }
    if forall|i: int| 0 <= i < q.len() ==> lb[i] <= #[trigger] y[i] <= ub[i] {
        assert forall|i: int| 0 <= i < lb.len() implies #[trigger] lb[i] <= y[i] by {
            assert(y[i] <= ub[i]);
        }
        assert forall|i: int| 0 <= i < y.len() implies #[trigger] y[i] <= ub[i] by {}
    }
}

/// The torques act on the last joints, one each and in order; the joints before
/// them feel none.
pub proof fn law_actuation(nv: nat, na: nat, tau: Seq<real>, i: int)
    requires
        na <= nv,
        tau.len() == na,
        0 <= i < nv,
    ensures
        mvec_s(actuation_s::<real>(nv, na), tau)[i] == (if i < nv - na {
            0real
        } else {
            tau[i - (nv - na)]
        }),
{
    let m = actuation_s::<real>(nv, na);
    let row = m.rows[i];
    if i < nv - na {
        assert(row =~= vzeros_s::<real>(na));
        lemma_dot_zero(tau, na);
    } else {
        let j = i - (nv - na);
        lemma_dot_single(row, tau, j, na);
        units(tau[j]);
    }
}

/// Regularising costs the squared distance to the target, and nothing else.
pub proof fn law_regularize(e: Aff<real>, target: Seq<real>, x: Seq<real>)
    requires
        e.wf(),
        target.len() == e.out(),
        x.len() == e.n(),
    ensures
        cost_s(regularize_s(e, target), x) == norm_sq_s(vsub_s(eval_s(e, x), target)),
        regularize_s(e, target).f.len() == 0,
{
    law_track(e, target, x);
}

/// A stance point holds still exactly where its acceleration `J q'' + J' v`
/// vanishes.
pub proof fn law_zero_contact(qddot: Aff<real>, j: Mat<real>, dj_v: Seq<real>, x: Seq<real>)
    requires
        qddot.wf(),
        j.shaped(dj_v.len(), qddot.out()),
        x.len() == qddot.n(),
    ensures
        residual_s(zero_contact_s(qddot, j, dj_v), x) == vadd_s(mvec_s(j, eval_s(qddot, x)), dj_v),
        zero_contact_s(qddot, j, dj_v).f.len() == 0,
{
    let zero = vzeros_s::<real>(dj_v.len());
    law_cartesian(qddot, j, dj_v, zero, x);
    assert(residual_s(zero_contact_s(qddot, j, dj_v), x) =~= vadd_s(
        mvec_s(j, eval_s(qddot, x)),
        dj_v,
    ));
}

/// The residual of a momentum task is the momentum rate `A_G q'' + A_G' v` less
/// its reference.
pub proof fn law_centroidal(
    qddot: Aff<real>,
    cmm: Mat<real>,
    dcmm_v: Seq<real>,
    h_rate_ref: Seq<real>,
    x: Seq<real>,
)
    requires
        qddot.wf(),
        cmm.shaped(dcmm_v.len(), qddot.out()),
        h_rate_ref.len() == dcmm_v.len(),
        x.len() == qddot.n(),
    ensures
        residual_s(centroidal_s(qddot, cmm, dcmm_v, h_rate_ref), x) == vsub_s(
            vadd_s(mvec_s(cmm, eval_s(qddot, x)), dcmm_v),
            h_rate_ref,
        ),
        centroidal_s(qddot, cmm, dcmm_v, h_rate_ref).f.len() == 0,
{
    law_cartesian(qddot, cmm, dcmm_v, h_rate_ref, x);
}

} // verus!
