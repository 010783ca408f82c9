//! Laws of the dynamics context: the three formulations describe one physics.

use vstd::prelude::*;

use crate::affine::{aff_add_s, aff_sub_s, coef_var_s, eval_s, Block};
use crate::dense::{mvec_s, row_range_s, slice_s, transpose_s, vadd_s, vsub_s, vzeros_s, Mat};
use crate::dynamics::{
    accel_s, dynamics_ok_s, dynamics_s, explicit_s, force_s, lemma_explicit_layout, lemma_names,
    lemma_pair_layout, partial_eom_s, Dyn, Formulation,
};
use crate::exact::{lemma_dot_single, lemma_dot_zero_upto, lemma_mmul_mvec, lemma_mvec_add};
use crate::kernels::{is_cholesky, DenseKernels};
use crate::laws::affine::{
    law_coefficient_of_variable, law_shift_of_expression, law_sum_of_expressions, law_var_selects,
};
use crate::laws::catalogue::{law_cartesian, law_equation_of_motion};
use crate::laws::task::{law_soft_eq_residual, residual_s};
use crate::laws::triangular::{
    law_chol_solve, law_chol_solve_mat, law_cholesky_rows, law_gram_unique,
};
use crate::tasks::{actuation_s, cartesian_s};
use crate::triangular::{chol_solve_mat_s, chol_solve_s};

verus! {

/// By how much accelerations, forces and torques miss the equation of motion:
/// `M qddot - Jc' f - S' tau + h`.
pub open spec fn gap_s(
    mass: Mat<real>,
    nle: Seq<real>,
    jc: Mat<real>,
    qddot: Seq<real>,
    f: Seq<real>,
    tau: Seq<real>,
) -> Seq<real> {
    vadd_s(
        vsub_s(
            vsub_s(mvec_s(mass, qddot), mvec_s(transpose_s(jc), f)),
            mvec_s(actuation_s::<real>(mass.nrows(), tau.len()), tau),
        ),
        nle,
    )
}

/// `x` meets the equality that the formulation still needs, if it needs one.
pub open spec fn physics_met(d: Dyn<real>, x: Seq<real>) -> bool {
    d.physics matches Some(t) ==> residual_s(t, x) == vzeros_s::<real>(t.b.len())
}

/// What `x` says of the physical quantities.
pub open spec fn quantities_s(d: Dyn<real>, x: Seq<real>) -> (Seq<real>, Seq<real>, Seq<real>) {
    (eval_s(d.qddot, x), slice_s(x, d.forces.offset, d.forces.size), eval_s(d.tau, x))
}

/// The torque reaches the last joints only.
proof fn lemma_actuation(nv: nat, tau: Seq<real>)
    requires
        tau.len() <= nv,
    ensures
        forall|i: int|
            0 <= i < nv ==> #[trigger] mvec_s(actuation_s::<real>(nv, tau.len()), tau)[i] == (if i
                < nv - tau.len() {
                0real
            } else {
                tau[i - (nv - tau.len())]
            }),
{
    let na = tau.len();
    let s = actuation_s::<real>(nv, na);
    assert forall|i: int| 0 <= i < nv implies #[trigger] mvec_s(s, tau)[i] == (if i < nv - na {
        0real
    } else {
        tau[i - (nv - na)]
    }) by {
        let row = s.rows[i];
        if i < nv - na {
            assert forall|j: int| 0 <= j < na implies #[trigger] row[j] * tau[j] == 0real by {
                let y = tau[j];
                assert(row[j] == 0real);
                assert(0real * y == 0real) by (nonlinear_arith);
            }
            lemma_dot_zero_upto(row, tau, na);
        } else {
            let k = i - (nv - na);
            lemma_dot_single(row, tau, k, na);
            let y = tau[k];
            assert(1real * y == y) by (nonlinear_arith);
        }
    }
}

/// What the partial equation of motion evaluates to.
proof fn lemma_partial(
    q: Block,
    f: Block,
    mass: Mat<real>,
    nle: Seq<real>,
    jc: Mat<real>,
    off: nat,
    k: nat,
    x: Seq<real>,
)
    requires
        q.wf(),
        f.wf(),
        f.n == q.n,
        x.len() == q.n,
        mass.shaped(nle.len(), q.size),
        jc.shaped(f.size, nle.len()),
        off + k <= nle.len(),
    ensures
        eval_s(partial_eom_s(q, f, mass, nle, jc, off, k), x).len() == k,
        forall|i: int|
            0 <= i < k ==> #[trigger] eval_s(partial_eom_s(q, f, mass, nle, jc, off, k), x)[i] == (
            mvec_s(mass, slice_s(x, q.offset, q.size))[off + i] - mvec_s(
                transpose_s(jc),
                slice_s(x, f.offset, f.size),
            )[off + i]) + nle[off + i],
{
    let (mr, jr) = (row_range_s(mass, off, k), row_range_s(transpose_s(jc), off, k));
    let (a, b) = (coef_var_s(mr, q), coef_var_s(jr, f));
    law_coefficient_of_variable(mr, q, x);
    law_coefficient_of_variable(jr, f, x);
    law_sum_of_expressions(a, b, x);
    law_shift_of_expression(aff_sub_s(a, b), slice_s(nle, off, k), x);
}

proof fn lemma_explicit(mass: Mat<real>, nle: Seq<real>, jc: Mat<real>, na: nat, x: Seq<real>)
    requires
        dynamics_ok_s(mass, nle, jc, na),
        x.len() == mass.nrows() + jc.nrows() + na,
    ensures
        ({
            let d = explicit_s(mass, nle, jc, na);
            let (nv, nf) = (mass.nrows(), jc.nrows());
            let (q, f, t) = quantities_s(d, x);
            &&& d.layout.n == nv + nf + na
            &&& q == slice_s(x, 0, nv) && f == slice_s(x, nv, nf) && t == slice_s(x, nv + nf, na)
            &&& residual_s(d.physics->0, x) == gap_s(mass, nle, jc, q, f, t)
        }),
{
    let (nv, nf) = (mass.nrows(), jc.nrows());
    let n = nv + nf + na;
    let q = Block { offset: 0, size: nv, n };
    let f = Block { offset: nv, size: nf, n };
    let t = Block { offset: nv + nf, size: na, n };
    lemma_explicit_layout(nv, nf, na);
    law_var_selects(q, x);
    law_var_selects(t, x);
    law_equation_of_motion(q, f, t, mass, nle, jc, x);
}

proof fn lemma_accel(mass: Mat<real>, nle: Seq<real>, jc: Mat<real>, na: nat, x: Seq<real>)
    requires
        dynamics_ok_s(mass, nle, jc, na),
        x.len() == mass.nrows() + jc.nrows(),
    ensures
        ({
            let d = accel_s(mass, nle, jc, na);
            let (nv, nf) = (mass.nrows(), jc.nrows());
            let (q, f, t) = quantities_s(d, x);
            let gap = gap_s(mass, nle, jc, q, f, t);
            &&& d.layout.n == nv + nf
            &&& q == slice_s(x, 0, nv) && f == slice_s(x, nv, nf) && t.len() == na
            &&& d.physics is Some <==> na < nv
            &&& na < nv ==> residual_s(d.physics->0, x) == slice_s(gap, 0, (nv - na) as nat)
                && d.physics->0.b.len() == nv - na
            &&& forall|i: int| nv - na <= i < nv ==> #[trigger] gap[i] == 0real
            &&& forall|i: int|
                0 <= i < na ==> #[trigger] t[i] == (mvec_s(mass, q)[nv - na + i] - mvec_s(
                    transpose_s(jc),
                    f,
                )[nv - na + i]) + nle[nv - na + i]
        }),
{
    let (nv, nf) = (mass.nrows(), jc.nrows());
    let n = nv + nf;
    let base = (nv - na) as nat;
    let q = Block { offset: 0, size: nv, n };
    let f = Block { offset: nv, size: nf, n };
    lemma_names();
    lemma_pair_layout("qddot"@, nv, nf);
    law_var_selects(q, x);
    lemma_partial(q, f, mass, nle, jc, base, na, x);
    let d = accel_s(mass, nle, jc, na);
    let (vq, vf, vt) = quantities_s(d, x);
    let gap = gap_s(mass, nle, jc, vq, vf, vt);
    lemma_actuation(nv, vt);
    if na < nv {
        let e = partial_eom_s(q, f, mass, nle, jc, 0, base);
        lemma_partial(q, f, mass, nle, jc, 0, base, x);
        law_soft_eq_residual(e, x);
        assert(residual_s(d.physics->0, x) =~= slice_s(gap, 0, base));
    }
}

/// `M * qddot(x) == S' tau + Jc' f - h` in the force space.
proof fn lemma_force(
    mass: Mat<real>,
    nle: Seq<real>,
    jc: Mat<real>,
    na: nat,
    l: Mat<real>,
    x: Seq<real>,
)
    requires
        dynamics_ok_s(mass, nle, jc, na),
        is_cholesky(l, mass),
        x.len() == na + jc.nrows(),
    ensures
        ({
            let d = force_s(mass, nle, jc, na, l);
            let nf = jc.nrows();
            let (q, f, t) = quantities_s(d, x);
            &&& d.layout.n == na + nf
            &&& q.len() == mass.nrows()
            &&& t == slice_s(x, 0, na) && f == slice_s(x, na, nf)
            &&& mvec_s(mass, q) == vsub_s(
                vadd_s(
                    mvec_s(actuation_s::<real>(mass.nrows(), na), t),
                    mvec_s(transpose_s(jc), f),
                ),
                nle,
            )
        }),
{
    let (nv, nf) = (mass.nrows(), jc.nrows());
    let n = na + nf;
    let t = Block { offset: 0, size: na, n };
    let f = Block { offset: na, size: nf, n };
    lemma_names();
    lemma_pair_layout("tau"@, na, nf);
    law_var_selects(t, x);
    law_cholesky_rows(l, mass);
    let (st, jt) = (actuation_s::<real>(nv, na), transpose_s(jc));
    let (a, b) = (chol_solve_mat_s(l.rows, st), chol_solve_mat_s(l.rows, jt));
    let c = chol_solve_s(l.rows, nle);
    law_chol_solve_mat(l.rows, st);
    law_chol_solve_mat(l.rows, jt);
    law_chol_solve(l.rows, nle);
    let (ea, eb) = (coef_var_s(a, t), coef_var_s(b, f));
    law_coefficient_of_variable(a, t, x);
    law_coefficient_of_variable(b, f, x);
    law_sum_of_expressions(ea, eb, x);
    law_shift_of_expression(aff_add_s(ea, eb), c, x);
    let (vt, vf) = (slice_s(x, 0, na), slice_s(x, na, nf));
    let (ya, yb) = (mvec_s(a, vt), mvec_s(b, vf));
    lemma_mvec_add(mass, vadd_s(ya, yb), c);
    lemma_mvec_add(mass, ya, yb);
    lemma_mmul_mvec(mass, a, vt);
    lemma_mmul_mvec(mass, b, vf);
}

/// The factor of a mass matrix that factors is a Cholesky factor.
proof fn lemma_factor(mass: Mat<real>)
    requires
        real::cholesky_s(mass) is Some,
    ensures
        is_cholesky(real::cholesky_s(mass)->0, mass),
{
}

/// In every formulation a decision vector meets the equation of motion exactly
/// where it meets the equality that the formulation still asks for; in the
/// force space, which asks for none, every decision vector does. In the
/// acceleration space every decision vector meets the actuated rows, through
/// which the torque was eliminated.
pub proof fn law_formulation_physics(
    formulation: Formulation,
    mass: Mat<real>,
    nle: Seq<real>,
    jc: Mat<real>,
    na: nat,
    d: Dyn<real>,
    x: Seq<real>,
)
    requires
        dynamics_ok_s(mass, nle, jc, na),
        dynamics_s(formulation, mass, nle, jc, na) == Some(d),
        x.len() == d.layout.n,
    ensures
        ({
            let (q, f, t) = quantities_s(d, x);
            gap_s(mass, nle, jc, q, f, t) == vzeros_s::<real>(mass.nrows()) <==> physics_met(d, x)
        }),
        formulation == Formulation::ForceSpace ==> d.physics is None,
        formulation == Formulation::AccelSpace ==> ({
            let (q, f, t) = quantities_s(d, x);
            forall|i: int|
                mass.nrows() - na <= i < mass.nrows() ==> #[trigger] gap_s(
                    mass,
                    nle,
                    jc,
                    q,
                    f,
                    t,
                )[i] == 0real
        }),
{
    let (nv, nf) = (mass.nrows(), jc.nrows());
    let zero = vzeros_s::<real>(nv);
    match formulation {
        Formulation::Explicit => {
            lemma_explicit_layout(nv, nf, na);
            lemma_explicit(mass, nle, jc, na, x);
        },
        Formulation::AccelSpace => {
            lemma_names();
            lemma_pair_layout("qddot"@, nv, nf);
            lemma_accel(mass, nle, jc, na, x);
            let (q, f, t) = quantities_s(d, x);
            let gap = gap_s(mass, nle, jc, q, f, t);
            let base = (nv - na) as nat;
            if physics_met(d, x) {
                assert forall|i: int| 0 <= i < nv implies gap[i] == 0real by {
                    if i < base {
                        assert(slice_s(gap, 0, base)[i] == vzeros_s::<real>(base)[i]);
                    }
                }
                assert(gap =~= zero);
            }
            if gap == zero {
                assert forall|i: int| 0 <= i < base implies slice_s(gap, 0, base)[i]
                    == 0real by {
                    assert(gap[i] == zero[i]);
                }
                assert(slice_s(gap, 0, base) =~= vzeros_s::<real>(base));
            }
        },
        Formulation::ForceSpace => {
            lemma_factor(mass);
            lemma_names();
            lemma_pair_layout("tau"@, na, nf);
            lemma_force(mass, nle, jc, na, real::cholesky_s(mass)->0, x);
            let (q, f, t) = quantities_s(d, x);
            assert(gap_s(mass, nle, jc, q, f, t) =~= zero);
        },
    }
}

/// The decision vector that stands for given physical quantities.
pub open spec fn decision_s(
    formulation: Formulation,
    q: Seq<real>,
    f: Seq<real>,
    tau: Seq<real>,
) -> Seq<real> {
    match formulation {
        Formulation::Explicit => q + (f + tau),
        Formulation::AccelSpace => q + f,
        Formulation::ForceSpace => tau + f,
    }
}

/// The formulations describe one physics: accelerations, forces and torques
/// that meet the equation of motion have a decision vector in each of them,
/// which meets what the formulation asks for and from which the same
/// quantities are recovered.
pub proof fn law_formulations_agree(
    formulation: Formulation,
    mass: Mat<real>,
    nle: Seq<real>,
    jc: Mat<real>,
    d: Dyn<real>,
    q: Seq<real>,
    f: Seq<real>,
    tau: Seq<real>,
)
    requires
        dynamics_ok_s(mass, nle, jc, tau.len()),
        dynamics_s(formulation, mass, nle, jc, tau.len()) == Some(d),
        q.len() == mass.nrows(),
        f.len() == jc.nrows(),
        gap_s(mass, nle, jc, q, f, tau) == vzeros_s::<real>(mass.nrows()),
    ensures
        ({
            let x = decision_s(formulation, q, f, tau);
            &&& x.len() == d.layout.n
            &&& quantities_s(d, x) == (q, f, tau)
            &&& physics_met(d, x)
        }),
{
    let (nv, nf, na) = (mass.nrows(), jc.nrows(), tau.len());
    let x = decision_s(formulation, q, f, tau);
    let gap = gap_s(mass, nle, jc, q, f, tau);
    let zero = vzeros_s::<real>(nv);
    match formulation {
        Formulation::Explicit => {
            lemma_explicit(mass, nle, jc, na, x);
            assert(slice_s(x, 0, nv) =~= q);
            assert(slice_s(x, nv, nf) =~= f);
            assert(slice_s(x, nv + nf, na) =~= tau);
        },
        Formulation::AccelSpace => {
            lemma_accel(mass, nle, jc, na, x);
            assert(slice_s(x, 0, nv) =~= q);
            assert(slice_s(x, nv, nf) =~= f);
            lemma_actuation(nv, tau);
            let t = quantities_s(d, x).2;
            assert forall|i: int| 0 <= i < na implies t[i] == tau[i] by {
                let k = nv - na + i;
                assert(gap[k] == zero[k]);
                let s = mvec_s(actuation_s::<real>(nv, na), tau);
                assert(s[k] == tau[i]);
            }
            assert(t =~= tau);
        },
        Formulation::ForceSpace => {
            lemma_factor(mass);
            let l = real::cholesky_s(mass)->0;
            lemma_force(mass, nle, jc, na, l, x);
            assert(slice_s(x, 0, na) =~= tau);
            assert(slice_s(x, na, nf) =~= f);
            let y = quantities_s(d, x).0;
            assert forall|i: int| 0 <= i < nv implies mvec_s(mass, y)[i] == mvec_s(mass, q)[i] by {
                assert(gap[i] == zero[i]);
            }
            assert(mvec_s(mass, y) =~= mvec_s(mass, q));
            law_cholesky_rows(l, mass);
            law_gram_unique(l.rows, y, q);
        },
    }
    law_formulation_physics(formulation, mass, nle, jc, na, d, x);
}

/// A Cartesian task built from the acceleration of each formulation has the
/// same residual wherever the accelerations are the same.
pub proof fn law_cartesian_agrees(
    d: Dyn<real>,
    e: Dyn<real>,
    x: Seq<real>,
    y: Seq<real>,
    j: Mat<real>,
    dj_v: Seq<real>,
    accel_ref: Seq<real>,
)
    requires
        d.wf(),
        e.wf(),
        x.len() == d.layout.n,
        y.len() == e.layout.n,
        j.shaped(dj_v.len(), d.qddot.out()),
        e.qddot.out() == d.qddot.out(),
        accel_ref.len() == dj_v.len(),
        eval_s(d.qddot, x) == eval_s(e.qddot, y),
    ensures
        residual_s(cartesian_s(d.qddot, j, dj_v, accel_ref), x) == residual_s(
            cartesian_s(e.qddot, j, dj_v, accel_ref),
            y,
        ),
{
    law_cartesian(d.qddot, j, dj_v, accel_ref, x);
    law_cartesian(e.qddot, j, dj_v, accel_ref, y);
}

/// Which formulations there are: the explicit one and that in the acceleration
/// space always, that in the force space exactly where the mass matrix has a
/// Cholesky factor. Each says what it is; its decision vector has the quantities
/// that it does not eliminate and no others, under their names; and what it asks
/// for has no inequality.
pub proof fn law_formulation_exists(
    formulation: Formulation,
    mass: Mat<real>,
    nle: Seq<real>,
    jc: Mat<real>,
    na: nat,
)
    requires
        dynamics_ok_s(mass, nle, jc, na),
    ensures
        dynamics_s(formulation, mass, nle, jc, na) is Some <==> formulation
            != Formulation::ForceSpace || real::cholesky_s(mass) is Some,
        dynamics_s(formulation, mass, nle, jc, na) matches Some(d) ==> {
            &&& d.formulation == formulation
            &&& d.layout.n == (match formulation {
                Formulation::Explicit => mass.nrows() + jc.nrows() + na,
                Formulation::AccelSpace => mass.nrows() + jc.nrows(),
                Formulation::ForceSpace => na + jc.nrows(),
            })
            &&& d.layout.has("f"@) && d.layout.var_s("f"@) == d.forces
            &&& (d.physics matches Some(t) ==> t.f.len() == 0)
        },
{
    let (nv, nf) = (mass.nrows(), jc.nrows());
    lemma_names();
    match formulation {
        Formulation::Explicit => {
            lemma_explicit_layout(nv, nf, na);
        },
        Formulation::AccelSpace => {
            lemma_pair_layout("qddot"@, nv, nf);
        },
        Formulation::ForceSpace => {
            lemma_pair_layout("tau"@, na, nf);
        },
    }
}

} // verus!
