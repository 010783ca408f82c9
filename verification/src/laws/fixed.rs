//! Fixed-point numbers stand for `units / 10^9`, and their arithmetic is right to
//! the last unit.

use vstd::prelude::*;

use crate::fixed::{is_isqrt, isqrt_s, mag_s, quot_s, up_s, Fixed};
use crate::scalar::Arith;

verus! {

/// `v` is a number of units.
pub open spec fn representable(v: int) -> bool {
    i64::MIN <= v <= i64::MAX
}

/// Sums, differences, signs and counts are exact wherever they can be held;
/// order and extremes go by the units.
pub proof fn law_fixed_sums(a: Fixed, b: Fixed, n: usize)
    ensures
        representable(a.units + b.units) ==> a.add_s(b).units == a.units + b.units,
        representable(a.units - b.units) ==> a.sub_s(b).units == a.units - b.units,
        representable(-a.units) ==> a.neg_s().units == -a.units,
        a.units >= 0 ==> a.abs_s() == a,
        a.units < 0 && representable(-a.units) ==> a.abs_s().units == -a.units,
        representable(n * 1_000_000_000) ==> Fixed::nat_s(n).units == n * 1_000_000_000,
        Fixed::zero_s().units == 0,
        Fixed::one_s().units == 1_000_000_000,
        a.lt_s(b) <==> a.units < b.units,
        a.le_s(b) <==> a.units <= b.units,
        a.max_s(b).units >= a.units && a.max_s(b).units >= b.units,
        a.max_s(b) == a || a.max_s(b) == b,
        a.min_s(b).units <= a.units && a.min_s(b).units <= b.units,
        a.min_s(b) == a || a.min_s(b) == b,
{
}

/// A quotient rounded towards zero misses the ratio by less than one, and not
/// beyond it.
proof fn lemma_quot(a: int, b: int)
    requires
        b != 0,
    ensures
        mag_s(quot_s(a, b) * b) <= mag_s(a),
        mag_s(a - quot_s(a, b) * b) < mag_s(b),
{
    let (x, y) = (mag_s(a) as int, mag_s(b) as int);
    let q = x / y;
    assert(q * y <= x && x - q * y < y && q >= 0) by (nonlinear_arith)
        requires
            q == x / y,
            y > 0,
            x >= 0,
    ;
    assert((-q) * b == -(q * b)) by (nonlinear_arith);
    assert(q * y >= 0) by (nonlinear_arith)
        requires
            q >= 0,
            y > 0,
    ;
    if b < 0 {
        assert(q * b == -(q * y)) by (nonlinear_arith)
            requires
                b == -y,
        ;
    }
}

/// A product is the exact one, in units, cut towards zero: off by less than one
/// unit, wherever it can be held.
pub proof fn law_fixed_product(a: Fixed, b: Fixed)
    requires
        representable(quot_s(a.units * b.units, 1_000_000_000)),
    ensures
        ({
            let p = a.units * b.units;
            let r = a.mul_s(b).units;
            &&& mag_s(r * 1_000_000_000) <= mag_s(p)
            &&& mag_s(p - r * 1_000_000_000) < 1_000_000_000
        }),
{
    lemma_quot(a.units * b.units, 1_000_000_000);
}

/// A quotient by a number other than zero, taken times the divisor, gives the
/// dividend back but for less than a unit of the divisor.
pub proof fn law_fixed_quotient(a: Fixed, b: Fixed)
    requires
        b.units != 0,
        representable(quot_s(a.units * 1_000_000_000, b.units as int)),
    ensures
        ({
            let n = a.units * 1_000_000_000;
            let r = a.div_s(b).units;
            &&& mag_s(r * b.units) <= mag_s(n)
            &&& mag_s(n - r * b.units) < mag_s(b.units as int)
        }),
{
    lemma_quot(a.units * 1_000_000_000, b.units as int);
}

/// `10^k`.
pub open spec fn ten_s(k: nat) -> int
    decreases k,
{
    if k == 0 {
        1
    } else {
        10 * ten_s((k - 1) as nat)
    }
}

proof fn lemma_up(v: int, k: nat)
    requires
        representable(v * ten_s(k)),
    ensures
        up_s(v, k) == v * ten_s(k),
        ten_s(k) >= 1,
    decreases k,
{
    if k > 0 {
        let t = ten_s((k - 1) as nat);
        lemma_ten(k);
        assert(t >= 1) by {
            lemma_ten((k - 1) as nat);
        }
        assert(v * (10 * t) == 10 * (v * t)) by (nonlinear_arith);
        lemma_up(v, (k - 1) as nat);
    } else {
        assert(v * 1 == v);
    }
}

proof fn lemma_ten(k: nat)
    ensures
        ten_s(k) >= 1,
    decreases k,
{
    if k > 0 {
        lemma_ten((k - 1) as nat);
    }
}

/// A decimal literal with at most nine places is exact, wherever it can be held.
pub proof fn law_fixed_literal(m: i64, e: i32)
    requires
        -9 <= e <= 9,
        representable(m * ten_s((e + 9) as nat)),
    ensures
        Fixed::dec_s(m, e).units == m * ten_s((e + 9) as nat),
{
    lemma_up(m as int, (e + 9) as nat);
}

/// A root is the exact one, in units, cut downwards.
pub proof fn law_fixed_root(a: Fixed, r: nat)
    requires
        a.units > 0,
        r <= i64::MAX,
        r * r <= a.units * 1_000_000_000 < (r + 1) * (r + 1),
    ensures
        a.sqrt_s().units == r,
{
    let n = (a.units * 1_000_000_000) as nat;
    assert(is_isqrt(n, r));
    let s = isqrt_s(n);
    assert(is_isqrt(n, s));
    assert(s == r) by (nonlinear_arith)
        requires
            s * s <= n,
            n < (s + 1) * (s + 1),
            r * r <= n,
            n < (r + 1) * (r + 1),
    ;
}

} // verus!
