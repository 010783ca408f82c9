//! The number type the library computes with.
//!
//! Every algorithm of this crate is generic in its scalar. The meaning of the
//! arithmetic is the spec trait [`Arith`]; the executable arithmetic is the
//! trait [`Scalar`], whose operations return exactly what `Arith` says. The
//! contracts of the library are therefore exact for whatever rounding the
//! scalar has: they say which operations are applied to which operands, in
//! which order.
//!
//! Two instances stand in this crate: [`crate::fixed::Fixed`], a saturating
//! fixed-point number that runs, and `real`, the exact arithmetic in which the
//! laws of the library are proved.

use vstd::prelude::*;

verus! {

/// What the operations of a scalar mean. Names end in `_s`, as all spec
/// counterparts in this crate do.
pub trait Arith: Sized {
    spec fn zero_s() -> Self;

    spec fn one_s() -> Self;

    /// The scalar that stands for the count `n`.
    spec fn nat_s(n: usize) -> Self;

    /// The scalar that stands for the decimal literal `m * 10^e`.
    spec fn dec_s(m: i64, e: i32) -> Self;

    spec fn add_s(self, o: Self) -> Self;

    spec fn sub_s(self, o: Self) -> Self;

    spec fn mul_s(self, o: Self) -> Self;

    spec fn div_s(self, o: Self) -> Self;

    spec fn neg_s(self) -> Self;

    spec fn abs_s(self) -> Self;

    spec fn sqrt_s(self) -> Self;

    /// The length of the vector with these two components.
    spec fn hypot_s(self, o: Self) -> Self;

    spec fn max_s(self, o: Self) -> Self;

    spec fn min_s(self, o: Self) -> Self;

    /// `self < o`. An unordered operand (a NaN) compares as `false`.
    spec fn lt_s(self, o: Self) -> bool;

    /// `self <= o`. An unordered operand compares as `false`.
    spec fn le_s(self, o: Self) -> bool;
}

/// The scalar that stands for the decimal literal `m * 10^e`.
pub open spec fn lit_s<T: Arith>(m: int, e: int) -> T {
    T::dec_s(m as i64, e as i32)
}

/// Executable scalar arithmetic: each operation returns what [`Arith`] says.
pub trait Scalar: Arith + Copy {
    fn zero() -> (r: Self)
        ensures
            r == Self::zero_s(),
    ;

    fn one() -> (r: Self)
        ensures
            r == Self::one_s(),
    ;

    fn of_count(n: usize) -> (r: Self)
        ensures
            r == Self::nat_s(n),
    ;

    /// The decimal literal `m * 10^e`.
    fn dec(m: i64, e: i32) -> (r: Self)
        ensures
            r == Self::dec_s(m, e),
    ;

    fn plus(self, o: Self) -> (r: Self)
        ensures
            r == self.add_s(o),
    ;

    fn minus(self, o: Self) -> (r: Self)
        ensures
            r == self.sub_s(o),
    ;

    fn times(self, o: Self) -> (r: Self)
        ensures
            r == self.mul_s(o),
    ;

    fn over(self, o: Self) -> (r: Self)
        ensures
            r == self.div_s(o),
    ;

    fn negated(self) -> (r: Self)
        ensures
            r == self.neg_s(),
    ;

    fn magnitude(self) -> (r: Self)
        ensures
            r == self.abs_s(),
    ;

    fn root(self) -> (r: Self)
        ensures
            r == self.sqrt_s(),
    ;

    fn hypotenuse(self, o: Self) -> (r: Self)
        ensures
            r == self.hypot_s(o),
    ;

    fn larger(self, o: Self) -> (r: Self)
        ensures
            r == self.max_s(o),
    ;

    fn smaller(self, o: Self) -> (r: Self)
        ensures
            r == self.min_s(o),
    ;

    fn less_than(self, o: Self) -> (r: bool)
        ensures
            r == self.lt_s(o),
    ;

    fn at_most(self, o: Self) -> (r: bool)
        ensures
            r == self.le_s(o),
    ;
}

/// `v` forced into `[lo, hi]`: `lo` below it, `hi` above it, else `v`.
pub open spec fn clamp_s<T: Arith>(v: T, lo: T, hi: T) -> T {
    if v.lt_s(lo) {
        lo
    } else if hi.lt_s(v) {
        hi
    } else {
        v
    }
}

/// Forces `v` into `[lo, hi]`. An unordered bound leaves `v` as it is.
pub fn clamp<S: Scalar>(v: S, lo: S, hi: S) -> (r: S)
    ensures
        r == clamp_s(v, lo, hi),
{
    if v.less_than(lo) {
        lo
    } else if hi.less_than(v) {
        hi
    } else {
        v
    }
}

/// `10^e` as a real number.
pub open spec fn pow10(e: nat) -> real
    decreases e,
{
    if e == 0 {
        1real
    } else {
        10real * pow10((e - 1) as nat)
    }
}

/// `r` is the non-negative square root of `a`.
pub open spec fn is_root(a: real, r: real) -> bool {
    r >= 0real && r * r == a
}

/// Every non-negative number has a square root. Laws that go through a square
/// root take this fact of the real numbers as a premise.
pub open spec fn roots_exist() -> bool {
    forall|a: real| a >= 0real ==> is_root(a, #[trigger] a.sqrt_s())
}

/// Exact arithmetic: the instance in which the library's laws are stated.
impl Arith for real {
    open spec fn zero_s() -> real {
        0real
    }

    open spec fn one_s() -> real {
        1real
    }

    open spec fn nat_s(n: usize) -> real {
        n as int as real
    }

    open spec fn dec_s(m: i64, e: i32) -> real {
        if e >= 0 {
            (m as int as real) * pow10(e as nat)
        } else {
            (m as int as real) / pow10((-e) as nat)
        }
    }

    open spec fn add_s(self, o: real) -> real {
        self + o
    }

    open spec fn sub_s(self, o: real) -> real {
        self - o
    }

    open spec fn mul_s(self, o: real) -> real {
        self * o
    }

    open spec fn div_s(self, o: real) -> real {
        self / o
    }

    open spec fn neg_s(self) -> real {
        -self
    }

    open spec fn abs_s(self) -> real {
        if self < 0real {
            -self
        } else {
            self
        }
    }

    open spec fn sqrt_s(self) -> real {
        choose|r: real| is_root(self, r)
    }

    open spec fn hypot_s(self, o: real) -> real {
        (self * self + o * o).sqrt_s()
    }

    open spec fn max_s(self, o: real) -> real {
        if self < o {
            o
        } else {
            self
        }
    }

    open spec fn min_s(self, o: real) -> real {
        if o < self {
            o
        } else {
            self
        }
    }

    open spec fn lt_s(self, o: real) -> bool {
        self < o
    }

    open spec fn le_s(self, o: real) -> bool {
        self <= o
    }
}

} // verus!
