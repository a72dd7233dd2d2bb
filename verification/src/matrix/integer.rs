//! The 64-bit signed integers as an element type.
//!
//! Sums, differences and products wrap, so the integers modulo 2^64 form the
//! ring; the quotient truncates toward zero, wrapping in the one case where
//! it does not fit, and the square root is the integer part of the real root.
use vstd::prelude::*;
use crate::matrix::{Ring, Scalar, Sqrt};

verus! {

/// `r` is the integer part of the square root of `x`.
pub open spec fn is_floor_sqrt(x: int, r: int) -> bool {
    0 <= r && r * r <= x < (r + 1) * (r + 1)
}

/// The integer part of the square root of a non-negative `x`.
pub open spec fn floor_sqrt(x: int) -> int {
    choose|r: int| is_floor_sqrt(x, r)
}

/// The quotient of `x` by a non-zero `y`, rounded toward zero.
pub open spec fn trunc_div(x: int, y: int) -> int {
    if x == 0 {
        0
    } else if x > 0 && y > 0 {
        x / y
    } else if x < 0 && y < 0 {
        (-x) / (-y)
    } else if x < 0 {
        -((-x) / y)
    } else {
        -(x / (-y))
    }
}

/// The integer part of a square root is unique.
pub proof fn lemma_floor_sqrt_unique(x: int, a: int, b: int)
    requires
        is_floor_sqrt(x, a),
        is_floor_sqrt(x, b),
    ensures
        a == b,
{
    if a < b {
        assert((a + 1) * (a + 1) <= b * b) by (nonlinear_arith)
            requires
                0 <= a + 1 <= b,
        ;
    } else if b < a {
        assert((b + 1) * (b + 1) <= a * a) by (nonlinear_arith)
            requires
                0 <= b + 1 <= a,
        ;
    }
}

/// Any witness of `is_floor_sqrt` is the value of `floor_sqrt`.
pub proof fn lemma_floor_sqrt_is(x: int, r: int)
    requires
        is_floor_sqrt(x, r),
    ensures
        floor_sqrt(x) == r,
{
    lemma_floor_sqrt_unique(x, r, floor_sqrt(x));
}

/// `num::Zero::zero` for `i64`: the constant 0.
#[verifier::external_body]
fn zero_i64() -> (r: i64)
    ensures
        r == 0,
{
    <i64 as num::Zero>::zero()
}

/// `num::One::one` for `i64`: the constant 1.
#[verifier::external_body]
fn one_i64() -> (r: i64)
    ensures
        r == 1,
{
    <i64 as num::One>::one()
}

/// `num::integer::Roots::sqrt` for `i64`: for a non-negative argument the
/// truncated principal square root, the `r >= 0` with `r*r <= x < (r+1)*(r+1)`.
/// A negative argument makes it panic, so it is left out.
#[verifier::external_body]
fn sqrt_i64(x: i64) -> (r: i64)
    requires
        x >= 0,
    ensures
        is_floor_sqrt(x as int, r as int),
{
    num::integer::Roots::sqrt(&x)
}

impl Ring for i64 {
    open spec fn zero_spec() -> i64 {
        0
    }

    open spec fn one_spec() -> i64 {
        1
    }

    open spec fn add_spec(self, rhs: i64) -> i64 {
        vstd::wrapping::i64_specs::wrapping_add(self, rhs)
    }

    open spec fn sub_spec(self, rhs: i64) -> i64 {
        vstd::wrapping::i64_specs::wrapping_sub(self, rhs)
    }

    open spec fn mul_spec(self, rhs: i64) -> i64 {
        vstd::wrapping::i64_specs::wrapping_mul(self, rhs)
    }

    fn one() -> (r: i64) {
        one_i64()
    }

    fn zero() -> (r: i64) {
        zero_i64()
    }

    fn add(self, rhs: i64) -> (r: i64) {
        self.wrapping_add(rhs)
    }

    fn sub(self, rhs: i64) -> (r: i64) {
        self.wrapping_sub(rhs)
    }

    fn mul(self, rhs: i64) -> (r: i64) {
        self.wrapping_mul(rhs)
    }

    proof fn lemma_add_assoc(a: i64, b: i64, c: i64) {
    }

    proof fn lemma_add_zero(a: i64) {
    }

    proof fn lemma_add_comm(a: i64, b: i64) {
    }

    proof fn lemma_sub_add(a: i64, b: i64) {
    }

    proof fn lemma_mul_comm(a: i64, b: i64) {
        assert(a * b == b * a) by (nonlinear_arith);
    }

    proof fn lemma_zero_mul(a: i64) {
        assert(0 * a == 0) by (nonlinear_arith);
    }
}

impl Sqrt for i64 {
    open spec fn has_sqrt(self) -> bool {
        self >= 0
    }

    open spec fn sqrt_spec(self) -> i64 {
        floor_sqrt(self as int) as i64
    }

    fn sqrt(self) -> (r: i64) {
        let r = sqrt_i64(self);
        proof {
            lemma_floor_sqrt_is(self as int, r as int);
        }
        r
    }
}

impl Scalar for i64 {
    open spec fn positive_spec(self) -> bool {
        self > 0
    }

    open spec fn div_spec(self, rhs: i64) -> i64 {
        let q = trunc_div(self as int, rhs as int);
        if i64::MIN <= q <= i64::MAX {
            q as i64
        } else {
            i64::MIN
        }
    }

    fn is_positive(self) -> (b: bool) {
        self > 0
    }

    fn is_zero(self) -> (b: bool) {
        self == 0
    }

    fn div(self, rhs: i64) -> (r: i64) {
        match self.checked_div(rhs) {
            Some(q) => q,
            None => i64::MIN,
        }
    }

    proof fn lemma_positive_sqrt(x: i64) {
        lemma_floor_sqrt_exists(x as int);
        let r = floor_sqrt(x as int);
        assert(r <= x) by (nonlinear_arith)
            requires
                0 <= r,
                r * r <= x,
                x >= 1,
        ;
        assert(r != 0) by (nonlinear_arith)
            requires
                x < (r + 1) * (r + 1),
                x >= 1,
        ;
    }
}

/// Every non-negative integer has an integer square root.
pub proof fn lemma_floor_sqrt_exists(x: int)
    requires
        x >= 0,
    ensures
        is_floor_sqrt(x, floor_sqrt(x)),
    decreases x,
{
    if x == 0 {
        assert(is_floor_sqrt(0, 0));
    } else {
        lemma_floor_sqrt_exists(x - 1);
        let r = floor_sqrt(x - 1);
        if (r + 1) * (r + 1) <= x {
            assert(x == (r + 1) * (r + 1));
            assert(x < (r + 2) * (r + 2)) by (nonlinear_arith)
                requires
                    x == (r + 1) * (r + 1),
                    r >= 0,
            ;
            assert(is_floor_sqrt(x, r + 1));
        } else {
            assert(is_floor_sqrt(x, r));
        }
    }
}

} // verus!
