//! Reference generators: turn target, state and gains into the acceleration
//! reference that a task tracks. Gains are per axis.
//!
//! | function | law |
//! |---|---|
//! | [`vel`] | `(v_ref - v) / T` |
//! | [`pd_ff`] | `a_ff + kp (x_ref - x) + kd (v_ref - v)` |
//! | [`pd`] | `kp (x_ref - x) + kd (v_ref - v)` |
//! | [`impedance`] | `k (x_ref - x) - d v` |

use vstd::prelude::*;

use crate::dense::{
    vadd, vadd_s, vmul, vmul_s, vover, vover_s, vsub, vsub_s, vzeros, vzeros_s,
};
use crate::scalar::{Arith, Scalar};

verus! {

/// `(v_ref - v) / t`.
pub open spec fn vel_s<T: Arith>(v_ref: Seq<T>, v: Seq<T>, t: T) -> Seq<T> {
    vover_s(vsub_s(v_ref, v), t)
}

/// `a_ff + kp (x_ref - x) + kd (v_ref - v)`.
pub open spec fn pd_ff_s<T: Arith>(
    x_ref: Seq<T>,
    x: Seq<T>,
    v_ref: Seq<T>,
    v: Seq<T>,
    kp: Seq<T>,
    kd: Seq<T>,
    a_ff: Seq<T>,
) -> Seq<T> {
    vadd_s(vadd_s(a_ff, vmul_s(kp, vsub_s(x_ref, x))), vmul_s(kd, vsub_s(v_ref, v)))
}

/// [`pd_ff_s`] without feed-forward.
pub open spec fn pd_s<T: Arith>(
    x_ref: Seq<T>,
    x: Seq<T>,
    v_ref: Seq<T>,
    v: Seq<T>,
    kp: Seq<T>,
    kd: Seq<T>,
) -> Seq<T> {
    pd_ff_s(x_ref, x, v_ref, v, kp, kd, vzeros_s(x.len()))
}

/// [`pd_s`] towards rest.
pub open spec fn impedance_s<T: Arith>(
    x_ref: Seq<T>,
    x: Seq<T>,
    v: Seq<T>,
    k: Seq<T>,
    d: Seq<T>,
) -> Seq<T> {
    pd_s(x_ref, x, vzeros_s(v.len()), v, k, d)
}

/// Reach `v_ref` over the time constant `t`: `(v_ref - v) / t`.
pub fn vel<S: Scalar>(v_ref: &Vec<S>, v: &Vec<S>, t: S) -> (a: Vec<S>)
    requires
        v_ref@.len() == v@.len(),
        S::zero_s().lt_s(t),
    ensures
        a@ == vel_s(v_ref@, v@, t),
{
    vover(&vsub(v_ref, v), t)
}

/// PD tracking with feed-forward, element-wise gains.
pub fn pd_ff<S: Scalar>(
    x_ref: &Vec<S>,
    x: &Vec<S>,
    v_ref: &Vec<S>,
    v: &Vec<S>,
    kp: &Vec<S>,
    kd: &Vec<S>,
    a_ff: &Vec<S>,
) -> (a: Vec<S>)
    requires
        x_ref@.len() == x@.len(),
        v_ref@.len() == x@.len(),
        v@.len() == x@.len(),
        kp@.len() == x@.len(),
        kd@.len() == x@.len(),
        a_ff@.len() == x@.len(),
    ensures
        a@ == pd_ff_s(x_ref@, x@, v_ref@, v@, kp@, kd@, a_ff@),
{
    vadd(&vadd(a_ff, &vmul(kp, &vsub(x_ref, x))), &vmul(kd, &vsub(v_ref, v)))
}

/// PD tracking without feed-forward.
pub fn pd<S: Scalar>(
    x_ref: &Vec<S>,
    x: &Vec<S>,
    v_ref: &Vec<S>,
    v: &Vec<S>,
    kp: &Vec<S>,
    kd: &Vec<S>,
) -> (a: Vec<S>)
    requires
        x_ref@.len() == x@.len(),
        v_ref@.len() == x@.len(),
        v@.len() == x@.len(),
        kp@.len() == x@.len(),
        kd@.len() == x@.len(),
    ensures
        a@ == pd_s(x_ref@, x@, v_ref@, v@, kp@, kd@),
{
    pd_ff(x_ref, x, v_ref, v, kp, kd, &vzeros(x.len()))
}

/// A virtual spring-damper towards `x_ref` at rest.
pub fn impedance<S: Scalar>(x_ref: &Vec<S>, x: &Vec<S>, v: &Vec<S>, k: &Vec<S>, d: &Vec<S>) -> (a:
    Vec<S>)
    requires
        x_ref@.len() == x@.len(),
        v@.len() == x@.len(),
        k@.len() == x@.len(),
        d@.len() == x@.len(),
    ensures
        a@ == impedance_s(x_ref@, x@, v@, k@, d@),
{
    pd(x_ref, x, &vzeros(v.len()), v, k, d)
}

/// In exact arithmetic the feed-forward law without feed-forward is the PD
/// law, entry by entry.
pub proof fn law_pd_exact(
    x_ref: Seq<real>,
    x: Seq<real>,
    v_ref: Seq<real>,
    v: Seq<real>,
    kp: Seq<real>,
    kd: Seq<real>,
    i: int,
)
    requires
        x_ref.len() == x.len(),
        v_ref.len() == x.len(),
        v.len() == x.len(),
        kp.len() == x.len(),
        kd.len() == x.len(),
        0 <= i < x.len(),
    ensures
        pd_s(x_ref, x, v_ref, v, kp, kd)[i] == kp[i] * (x_ref[i] - x[i]) + kd[i] * (v_ref[i]
            - v[i]),
{
}

/// In exact arithmetic the impedance law is a spring towards the reference and
/// a damper on the velocity.
pub proof fn law_impedance_exact(
    x_ref: Seq<real>,
    x: Seq<real>,
    v: Seq<real>,
    k: Seq<real>,
    d: Seq<real>,
    i: int,
)
    requires
        x_ref.len() == x.len(),
        v.len() == x.len(),
        k.len() == x.len(),
        d.len() == x.len(),
        0 <= i < x.len(),
    ensures
        impedance_s(x_ref, x, v, k, d)[i] == k[i] * (x_ref[i] - x[i]) - d[i] * v[i],
{
    assert(d[i] * (0real - v[i]) == -(d[i] * v[i])) by (nonlinear_arith);
}

/// In exact arithmetic, following the velocity law for the time constant
/// closes the velocity error.
pub proof fn law_vel_exact(v_ref: Seq<real>, v: Seq<real>, t: real, i: int)
    requires
        v_ref.len() == v.len(),
        t > 0real,
        0 <= i < v.len(),
    ensures
        v[i] + vel_s(v_ref, v, t)[i] * t == v_ref[i],
{
    let e = v_ref[i] - v[i];
    assert((e / t) * t == e) by (nonlinear_arith)
        requires
            t > 0real,
    ;
}

/// In exact arithmetic, following the feed-forward law makes the tracking error
/// obey `e'' + kd e' + kp e = 0`: the feed-forward less the commanded
/// acceleration, the damped velocity error and the stiff position error cancel.
pub proof fn law_pd_ff_exact(
    x_ref: Seq<real>,
    x: Seq<real>,
    v_ref: Seq<real>,
    v: Seq<real>,
    kp: Seq<real>,
    kd: Seq<real>,
    a_ff: Seq<real>,
    i: int,
)
    requires
        x_ref.len() == x.len(),
        v_ref.len() == x.len(),
        v.len() == x.len(),
        kp.len() == x.len(),
        kd.len() == x.len(),
        a_ff.len() == x.len(),
        0 <= i < x.len(),
    ensures
        ({
            let a = pd_ff_s(x_ref, x, v_ref, v, kp, kd, a_ff)[i];
            (a_ff[i] - a) + kd[i] * (v_ref[i] - v[i]) + kp[i] * (x_ref[i] - x[i]) == 0real
        }),
{
}

} // verus!
