//! A saturating fixed-point number with nine decimals: a scalar that runs
//! anywhere and whose every operation is verified.

use vstd::prelude::*;

use crate::dense::{vzeros, vzeros_s, Mat, Matrix};
use crate::elimination::{
    chol_factor, chol_factor_s, jordan_solve, jordan_solve_s, kernel, kernel_s,
};
use crate::kernels::{
    Backend, Conic, ConicAnswer, ConicProblem, ConicReply, ConicStatus, DenseKernels,
};
use crate::scalar::{Arith, Scalar};

verus! {

/// The number of units in one.
pub const ONE: i64 = 1_000_000_000;

/// The number `units / 10^9`. Results outside the range of `i64` saturate.
#[derive(Debug, Clone, Copy, PartialEq, Eq, Structural)]
pub struct Fixed {
    pub units: i64,
}

/// `v` forced into the range of `i64`.
pub open spec fn sat_s(v: int) -> i64 {
    if v > i64::MAX {
        i64::MAX
    } else if v < i64::MIN {
        i64::MIN
    } else {
        v as i64
    }
}

pub open spec fn mag_s(v: int) -> nat {
    if v < 0 {
        (-v) as nat
    } else {
        v as nat
    }
}

/// `a / b` rounded towards zero. A quotient by zero is beyond every bound, with
/// the sign of `a`.
pub open spec fn quot_s(a: int, b: int) -> int {
    if b == 0 {
        if a > 0 {
            i64::MAX as int
        } else if a < 0 {
            i64::MIN as int
        } else {
            0
        }
    } else if (a < 0) == (b < 0) {
        (mag_s(a) / mag_s(b)) as int
    } else {
        -((mag_s(a) / mag_s(b)) as int)
    }
}

/// `r` is the integer root of `n`.
pub open spec fn is_isqrt(n: nat, r: nat) -> bool {
    r * r <= n && n < (r + 1) * (r + 1)
}

pub open spec fn isqrt_s(n: nat) -> nat {
    choose|r: nat| is_isqrt(n, r)
}

/// `v` times ten, `k` times, saturating.
pub open spec fn up_s(v: int, k: nat) -> int
    decreases k,
{
    if k == 0 {
        sat_s(v) as int
    } else {
        sat_s(up_s(v, (k - 1) as nat) * 10) as int
    }
}

/// `v` divided by ten, `k` times, rounded towards zero.
pub open spec fn down_s(v: int, k: nat) -> int
    decreases k,
{
    if k == 0 {
        v
    } else {
        quot_s(down_s(v, (k - 1) as nat), 10)
    }
}

pub open spec fn fixed_s(v: int) -> Fixed {
    Fixed { units: sat_s(v) }
}

impl Arith for Fixed {
    open spec fn zero_s() -> Fixed {
        fixed_s(0)
    }

    open spec fn one_s() -> Fixed {
        fixed_s(ONE as int)
    }

    open spec fn nat_s(n: usize) -> Fixed {
        fixed_s(n * ONE)
    }

    open spec fn dec_s(m: i64, e: i32) -> Fixed {
        if e + 9 >= 0 {
            fixed_s(up_s(m as int, (e + 9) as nat))
        } else {
            fixed_s(down_s(m as int, (-(e + 9)) as nat))
        }
    }

    open spec fn add_s(self, o: Fixed) -> Fixed {
        fixed_s(self.units + o.units)
    }

    open spec fn sub_s(self, o: Fixed) -> Fixed {
        fixed_s(self.units - o.units)
    }

    open spec fn mul_s(self, o: Fixed) -> Fixed {
        fixed_s(quot_s(self.units * o.units, ONE as int))
    }

    open spec fn div_s(self, o: Fixed) -> Fixed {
        fixed_s(quot_s(self.units * ONE, o.units as int))
    }

    open spec fn neg_s(self) -> Fixed {
        fixed_s(-self.units)
    }

    open spec fn abs_s(self) -> Fixed {
        fixed_s(mag_s(self.units as int) as int)
    }

    /// The root of a negative number is zero.
    open spec fn sqrt_s(self) -> Fixed {
        if self.units <= 0 {
            fixed_s(0)
        } else {
            fixed_s(isqrt_s((self.units * ONE) as nat) as int)
        }
    }

    open spec fn hypot_s(self, o: Fixed) -> Fixed {
        fixed_s(
            isqrt_s(
                mag_s(self.units as int) * mag_s(self.units as int) + mag_s(o.units as int)
                    * mag_s(o.units as int),
            ) as int,
        )
    }

    open spec fn max_s(self, o: Fixed) -> Fixed {
        if self.units < o.units {
            o
        } else {
            self
        }
    }

    open spec fn min_s(self, o: Fixed) -> Fixed {
        if o.units < self.units {
            o
        } else {
            self
        }
    }

    open spec fn lt_s(self, o: Fixed) -> bool {
        self.units < o.units
    }

    open spec fn le_s(self, o: Fixed) -> bool {
        self.units <= o.units
    }
}

fn sat(v: i128) -> (r: i64)
    ensures
        r == sat_s(v as int),
{
    if v > i64::MAX as i128 {
        i64::MAX
    } else if v < i64::MIN as i128 {
        i64::MIN
    } else {
        v as i64
    }
}

fn mag(v: i128) -> (r: u128)
    requires
        v > i128::MIN,
    ensures
        r == mag_s(v as int),
{
    if v < 0 {
        (-v) as u128
    } else {
        v as u128
    }
}

fn quot(a: i128, b: i128) -> (r: i128)
    requires
        a > i128::MIN,
        b > i128::MIN,
    ensures
        r == quot_s(a as int, b as int),
{
    if b == 0 {
        if a > 0 {
            i64::MAX as i128
        } else if a < 0 {
            i64::MIN as i128
        } else {
            0
        }
    } else {
        let ma = mag(a);
        let mb = mag(b);
        let q = ma / mb;
        assert(q <= ma) by (nonlinear_arith)
            requires
                mb >= 1,
                q == ma / mb,
        ;
        if (a < 0) == (b < 0) {
            q as i128
        } else {
            -(q as i128)
        }
    }
}

/// There is one integer root.
proof fn lemma_isqrt(n: nat, r: nat)
    requires
        is_isqrt(n, r),
    ensures
        isqrt_s(n) == r,
{
    let s = isqrt_s(n);
    assert(is_isqrt(n, s));
    if s < r {
        assert((s + 1) * (s + 1) <= r * r) by (nonlinear_arith)
            requires
                s + 1 <= r,
        ;
    }
    if r < s {
        assert((r + 1) * (r + 1) <= s * s) by (nonlinear_arith)
            requires
                r + 1 <= s,
        ;
    }
}

fn isqrt(n: u128) -> (r: u64)
    requires
        n <= 0x8000_0000_0000_0000_0000_0000_0000_0000u128,
    ensures
        r == isqrt_s(n as nat),
{
    let mut lo: u128 = 0;
    let mut hi: u128 = 0x1_0000_0000_0000_0000u128;
    assert(0x8000_0000_0000_0000_0000_0000_0000_0000int < 0x1_0000_0000_0000_0000int
        * 0x1_0000_0000_0000_0000int);
    while hi - lo > 1
        invariant
            0 <= lo < hi <= 0x1_0000_0000_0000_0000u128,
            lo * lo <= n,
            n < hi * hi,
        decreases hi - lo,
    {
        let mid = lo + (hi - lo) / 2;
        assert(mid < 0x1_0000_0000_0000_0000u128);
        assert(mid * mid <= 0xffff_ffff_ffff_ffffint * 0xffff_ffff_ffff_ffffint)
            by (nonlinear_arith)
            requires
                0 <= mid <= 0xffff_ffff_ffff_ffffint,
        ;
        if mid * mid <= n {
            lo = mid;
        } else {
            hi = mid;
        }
    }
    proof {
        assert(hi == lo + 1);
        assert(is_isqrt(n as nat, lo as nat));
        lemma_isqrt(n as nat, lo as nat);
    }
    lo as u64
}

fn up(v: i64, k: u64) -> (r: i64)
    ensures
        r == up_s(v as int, k as nat),
{
    let mut r = v;
    let mut i: u64 = 0;
    while i < k
        invariant
            i <= k,
            r == up_s(v as int, i as nat),
        decreases k - i,
    {
        r = sat(r as i128 * 10);
        i += 1;
    }
    r
}

proof fn lemma_down_small(v: int, k: nat)
    requires
        i64::MIN <= v <= i64::MAX,
    ensures
        mag_s(down_s(v, k)) <= mag_s(v),
    decreases k,
{
    if k > 0 {
        lemma_down_small(v, (k - 1) as nat);
        let a = mag_s(down_s(v, (k - 1) as nat));
        assert(a / 10 <= a);
    }
}

fn down(v: i64, k: u64) -> (r: i64)
    ensures
        r == down_s(v as int, k as nat),
{
    let mut r = v as i128;
    let mut i: u64 = 0;
    while i < k
        invariant
            i <= k,
            r == down_s(v as int, i as nat),
            i64::MIN <= r <= i64::MAX,
        decreases k - i,
    {
        r = quot(r, 10);
        proof {
            lemma_down_small(v as int, (i + 1) as nat);
            lemma_down_sign(v as int, (i + 1) as nat);
        }
        i += 1;
    }
    r as i64
}

proof fn lemma_down_sign(v: int, k: nat)
    ensures
        v >= 0 ==> down_s(v, k) >= 0,
        v <= 0 ==> down_s(v, k) <= 0,
    decreases k,
{
    if k > 0 {
        lemma_down_sign(v, (k - 1) as nat);
    }
}

/// A product of two `i64` fits in `i128`.
proof fn lemma_product(a: i64, b: i64)
    ensures
        -0x4000_0000_0000_0000_0000_0000_0000_0000int <= a * b
            <= 0x4000_0000_0000_0000_0000_0000_0000_0000int,
{
    assert(-0x4000_0000_0000_0000_0000_0000_0000_0000int <= a * b
        <= 0x4000_0000_0000_0000_0000_0000_0000_0000int) by (nonlinear_arith)
        requires
            -0x8000_0000_0000_0000int <= a <= 0x8000_0000_0000_0000int,
            -0x8000_0000_0000_0000int <= b <= 0x8000_0000_0000_0000int,
    ;
}

impl Scalar for Fixed {
    fn zero() -> Fixed {
        Fixed { units: 0 }
    }

    fn one() -> Fixed {
        Fixed { units: ONE }
    }

    fn of_count(n: usize) -> Fixed {
        Fixed { units: sat(n as i128 * ONE as i128) }
    }

    fn dec(m: i64, e: i32) -> Fixed {
        let k = e as i64 + 9;
        if k >= 0 {
            Fixed { units: up(m, k as u64) }
        } else {
            Fixed { units: down(m, (-k) as u64) }
        }
    }

    fn plus(self, o: Fixed) -> Fixed {
        Fixed { units: sat(self.units as i128 + o.units as i128) }
    }

    fn minus(self, o: Fixed) -> Fixed {
        Fixed { units: sat(self.units as i128 - o.units as i128) }
    }

    fn times(self, o: Fixed) -> Fixed {
        proof {
            lemma_product(self.units, o.units);
        }
        Fixed { units: sat(quot(self.units as i128 * o.units as i128, ONE as i128)) }
    }

    fn over(self, o: Fixed) -> Fixed {
        proof {
            lemma_product(self.units, ONE);
        }
        Fixed { units: sat(quot(self.units as i128 * ONE as i128, o.units as i128)) }
    }

    fn negated(self) -> Fixed {
        Fixed { units: sat(-(self.units as i128)) }
    }

    fn magnitude(self) -> Fixed {
        Fixed { units: sat(mag(self.units as i128) as i128) }
    }

    fn root(self) -> Fixed {
        if self.units <= 0 {
            Fixed { units: 0 }
        } else {
            proof {
                lemma_product(self.units, ONE);
                assert(self.units * ONE >= 0) by (nonlinear_arith)
                    requires
                        self.units >= 0,
                        ONE >= 0,
                ;
            }
            let r = isqrt((self.units as i128 * ONE as i128) as u128);
            Fixed { units: sat(r as i128) }
        }
    }

    fn hypotenuse(self, o: Fixed) -> Fixed {
        let a = mag(self.units as i128);
        let b = mag(o.units as i128);
        assert(0 <= a * a <= 0x4000_0000_0000_0000_0000_0000_0000_0000int) by (nonlinear_arith)
            requires
                0 <= a <= 0x8000_0000_0000_0000int,
        ;
        assert(0 <= b * b <= 0x4000_0000_0000_0000_0000_0000_0000_0000int) by (nonlinear_arith)
            requires
                0 <= b <= 0x8000_0000_0000_0000int,
        ;
        let r = isqrt(a * a + b * b);
        Fixed { units: sat(r as i128) }
    }

    fn larger(self, o: Fixed) -> Fixed {
        if self.units < o.units {
            o
        } else {
            self
        }
    }

    fn smaller(self, o: Fixed) -> Fixed {
        if o.units < self.units {
            o
        } else {
            self
        }
    }

    fn less_than(self, o: Fixed) -> bool {
        self.units < o.units
    }

    fn at_most(self, o: Fixed) -> bool {
        self.units <= o.units
    }
}

/// There is no conic solver for this scalar: every problem is answered as not
/// solved.
pub open spec fn unsolved_s(p: Conic<Fixed>) -> ConicAnswer<Fixed> {
    ConicAnswer {
        status: ConicStatus::Other,
        x: vzeros_s(p.q.len()),
        z: vzeros_s(p.b.len()),
        iterations: 0,
    }
}

impl DenseKernels for Fixed {
    open spec fn cholesky_s(a: Mat<Fixed>) -> Option<Mat<Fixed>> {
        chol_factor_s(a)
    }

    open spec fn lu_solve_s(a: Mat<Fixed>, b: Mat<Fixed>) -> Option<Mat<Fixed>> {
        jordan_solve_s(a, b)
    }

    open spec fn null_space_s(a: Mat<Fixed>) -> Mat<Fixed> {
        kernel_s(a)
    }

    open spec fn conic_s(p: Conic<Fixed>) -> ConicAnswer<Fixed> {
        unsolved_s(p)
    }
}

impl Backend for Fixed {
    fn cholesky(a: &Matrix<Fixed>) -> Option<Matrix<Fixed>> {
        chol_factor(a)
    }

    fn lu_solve(a: &Matrix<Fixed>, b: &Matrix<Fixed>) -> Option<Matrix<Fixed>> {
        jordan_solve(a, b)
    }

    fn null_space(a: &Matrix<Fixed>) -> Matrix<Fixed> {
        kernel(a)
    }

    fn conic(p: &ConicProblem<Fixed>) -> ConicReply<Fixed> {
        ConicReply {
            status: ConicStatus::Other,
            x: vzeros(p.q.len()),
            z: vzeros(p.b.len()),
            iterations: 0,
        }
    }
}

} // verus!
