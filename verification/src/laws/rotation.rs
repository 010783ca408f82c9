//! The plane rotation of a rank-one update.

use vstd::prelude::*;

use crate::exact::{assoc, distrib};

verus! {

/// A quotient times its divisor is the dividend.
pub proof fn lemma_over(a: real, b: real)
    requires
        b != 0real,
    ensures
        b * (a / b) == a,
{
    assert(b * (a / b) == a) by (nonlinear_arith)
        requires
            b != 0real,
    ;
}

/// A common factor that is not zero cancels.
pub proof fn lemma_cancel(a: real, b: real, k: real)
    requires
        a * k == b * k,
        k != 0real,
    ensures
        a == b,
{
    assert(a == b) by (nonlinear_arith)
        requires
            a * k == b * k,
            k != 0real,
    ;
}

/// Four factors regroup.
proof fn four(a: real, b: real, c: real, d: real)
    ensures
        (a * b) * (c * d) == (a * c) * (b * d),
        (a * b) * (c * d) == (c * b) * (a * d),
{
    assoc(a, b, c * d);
    assoc(b, c, d);
    distrib(b, c, 0real);
    assoc(c, b, d);
    assoc(a, c, b * d);
    assoc(a * c, b, d);
    distrib(a, c, 0real);
    assoc(c, a, b * d);
    assoc(a, b, d);
    distrib(a, b, 0real);
    assoc(b, a, d);
    assoc(c, b, a * d);
}

/// The product of two sums.
proof fn spread(a: real, b: real, c: real, d: real)
    ensures
        (a + b) * (c + d) == a * c + a * d + b * c + b * d,
        (a - b) * (c - d) == a * c - a * d - b * c + b * d,
{
    distrib(a, b, c + d);
    distrib(a, c, d);
    distrib(b, c, d);
    distrib(a, b, c - d);
}

/// One rotation of the update keeps the sum of the two products.
pub proof fn lemma_rotation(l: real, r: real, v: real, li: real, vi: real, lp: real, vp: real)
    requires
        l > 0real,
        r > 0real,
        r * r == l * l + v * v,
    ensures
        ({
            let (c, s) = (r / l, v / l);
            let (a, b) = ((li + s * vi) / c, (lp + s * vp) / c);
            &&& a * b + (c * vi - s * a) * (c * vp - s * b) == li * lp + vi * vp
            &&& a * r == li * l + vi * v
        }),
{
    let (c, s) = (r / l, v / l);
    lemma_over(r, l);
    assert(c > 0real) by (nonlinear_arith)
        requires
            l * c == r,
            l > 0real,
            r > 0real,
    ;
    lemma_over(v, l);
    four(l, c, l, c);
    four(l, s, l, s);
    let (cc, ss, ll) = (c * c, s * s, l * l);
    distrib(ll, cc, 0real);
    distrib(ll, ss, 0real);
    distrib(1real, ss, ll);
    assert(ll > 0real) by (nonlinear_arith)
        requires
            ll == l * l,
            l > 0real,
    ;
    lemma_cancel(cc, 1real + ss, ll);
    let (x, y) = (li + s * vi, lp + s * vp);
    let (a, b) = (x / c, y / c);
    lemma_over(x, c);
    lemma_over(y, c);
    spread(c * vi, s * a, c * vp, s * b);
    four(c, vi, c, vp);
    four(c, vi, s, b);
    four(s, a, c, vp);
    four(s, a, s, b);
    four(c, a, c, b);
    distrib(1real, ss, a * b);
    distrib(1real, ss, vi * vp);
    distrib(s * a, c * vp, 0real);
    spread(li, s * vi, lp, s * vp);
    four(s, vi, s, vp);
    distrib(s * vi, lp, s * vp);
    distrib(s * vp, li, s * vi);
    four(s, vp, s, vi);
    distrib(vi, vp, 0real);
    distrib(li, s * vp, 0real);
    distrib(c * a, s * vp, 0real);
    assoc(l, c, a);
    distrib(a, l * c, 0real);
    distrib(l, c * a, 0real);
    distrib(li, s * vi, l);
    assoc(s, vi, l);
    distrib(s, vi * l, 0real);
    assoc(vi, l, s);
}

} // verus!
