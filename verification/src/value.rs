//! Exact rational values with bounded numerator and denominator.
//!
//! A `Value` stands for the rational number `num / den`. The denominator is
//! always positive, so the sign lives in the numerator. Arithmetic is exact:
//! the result of an operation is the mathematical rational, or an `Overflow`
//! error when its unreduced numerator or denominator leaves the bound.

use vstd::prelude::*;
use crate::errors::CalculatorError;

verus! {

/// Exclusive bound on the magnitude of a numerator and on a denominator.
pub const BOUND: i64 = 1000000000000000000;

/// A rational number `num / den` with `den > 0`.
#[derive(Clone, Copy, Debug)]
pub struct Value {
    pub num: i64,
    pub den: i64,
}

/// The representation invariant: both components within `BOUND`, positive
/// denominator. Cross products of two valid values then fit comfortably
/// in `i128`.
pub open spec fn valid_value(v: Value) -> bool {
    -(BOUND as int) < (v.num as int) < (BOUND as int) && 1 <= (v.den as int) < (BOUND as int)
}

/// Does the pair `n / d` fit the representation?
pub open spec fn fits(n: int, d: int) -> bool {
    -(BOUND as int) < n < (BOUND as int) && 1 <= d < (BOUND as int)
}

/// The sum of `n1/d1` and `n2/d2`, unreduced.
pub open spec fn rat_add(n1: int, d1: int, n2: int, d2: int) -> (int, int) {
    (n1 * d2 + n2 * d1, d1 * d2)
}

/// The difference `n1/d1 - n2/d2`, unreduced.
pub open spec fn rat_sub(n1: int, d1: int, n2: int, d2: int) -> (int, int) {
    (n1 * d2 - n2 * d1, d1 * d2)
}

/// The product of `n1/d1` and `n2/d2`, unreduced.
pub open spec fn rat_mul(n1: int, d1: int, n2: int, d2: int) -> (int, int) {
    (n1 * n2, d1 * d2)
}

/// The quotient `(n1/d1) / (n2/d2)` for `n2 != 0`, unreduced, with the
/// sign moved into the numerator.
pub open spec fn rat_div(n1: int, d1: int, n2: int, d2: int) -> (int, int) {
    if n2 < 0 {
        (-(n1 * d2), -(d1 * n2))
    } else {
        (n1 * d2, d1 * n2)
    }
}

/// Equality of `n1/d1` and `n2/d2` as rational numbers (cross product).
pub open spec fn rat_eq(n1: int, d1: int, n2: int, d2: int) -> bool {
    n1 * d2 == n2 * d1
}

impl Value {
    /// The whole number `n`.
    pub fn from_int(n: i64) -> (r: Value)
        requires
            -(BOUND as int) < (n as int) < (BOUND as int),
        ensures
            valid_value(r),
            r.num == n,
            r.den == 1,
    {
        Value { num: n, den: 1 }
    }

    /// Is this value exactly zero?
    pub fn is_zero(&self) -> (r: bool)
        ensures
            r == (self.num == 0),
    {
        self.num == 0
    }
}

/// Are `a` and `b` the same rational number? Representations may differ:
/// `4/2` equals `2/1`.
pub fn value_eq(a: &Value, b: &Value) -> (r: bool)
    requires
        valid_value(*a),
        valid_value(*b),
    ensures
        r == rat_eq(a.num as int, a.den as int, b.num as int, b.den as int),
{
    proof {
        lemma_cross_bounds(*a, *b);
    }
    (a.num as i128) * (b.den as i128) == (b.num as i128) * (a.den as i128)
}

/// Packs `n / d` into a `Value`, or reports `Overflow` when it does not fit.
fn mk_value(n: i128, d: i128) -> (r: Result<Value, CalculatorError>)
    requires
        d >= 1,
    ensures
        match r {
            Ok(v) => fits(n as int, d as int) && v.num as int == n as int && v.den as int == d
                as int && valid_value(v),
            Err(e) => !fits(n as int, d as int) && e@ is Overflow,
        },
{
    if -(BOUND as i128) < n && n < BOUND as i128 && d < BOUND as i128 {
        Ok(Value { num: n as i64, den: d as i64 })
    } else {
        Err(CalculatorError::Overflow)
    }
}

/// Bounds for the cross products of two valid values: each product of a
/// component of `a` with a component of `b` stays far inside `i128`.
proof fn lemma_cross_bounds(a: Value, b: Value)
    requires
        valid_value(a),
        valid_value(b),
    ensures
        -(BOUND as int) * (BOUND as int) < (a.num as int) * (b.den as int) < (BOUND as int) * (
        BOUND as int),
        -(BOUND as int) * (BOUND as int) < (b.num as int) * (a.den as int) < (BOUND as int) * (
        BOUND as int),
        -(BOUND as int) * (BOUND as int) < (a.num as int) * (b.num as int) < (BOUND as int) * (
        BOUND as int),
        1 <= (a.den as int) * (b.den as int) < (BOUND as int) * (BOUND as int),
{
    assert(-(BOUND as int) * (BOUND as int) < (a.num as int) * (b.den as int) < (BOUND as int) * (
    BOUND as int)) by (nonlinear_arith)
        requires
            -(BOUND as int) < (a.num as int) < (BOUND as int),
            1 <= (b.den as int) < (BOUND as int),
    ;
    assert(-(BOUND as int) * (BOUND as int) < (b.num as int) * (a.den as int) < (BOUND as int) * (
    BOUND as int)) by (nonlinear_arith)
        requires
            -(BOUND as int) < (b.num as int) < (BOUND as int),
            1 <= (a.den as int) < (BOUND as int),
    ;
    assert(-(BOUND as int) * (BOUND as int) < (a.num as int) * (b.num as int) < (BOUND as int) * (
    BOUND as int)) by (nonlinear_arith)
        requires
            -(BOUND as int) < (a.num as int) < (BOUND as int),
            -(BOUND as int) < (b.num as int) < (BOUND as int),
    ;
    assert(1 <= (a.den as int) * (b.den as int) < (BOUND as int) * (BOUND as int))
        by (nonlinear_arith)
        requires
            1 <= (a.den as int) < (BOUND as int),
            1 <= (b.den as int) < (BOUND as int),
    ;
}

/// `a + b`: the exact rational sum, or `Overflow`.
pub fn value_add(a: &Value, b: &Value) -> (r: Result<Value, CalculatorError>)
    requires
        valid_value(*a),
        valid_value(*b),
    ensures
        ({
            let (n, d) = rat_add(a.num as int, a.den as int, b.num as int, b.den as int);
            match r {
                Ok(v) => fits(n, d) && v.num as int == n && v.den as int == d && valid_value(v),
                Err(e) => !fits(n, d) && e@ is Overflow,
            }
        }),
{
    proof {
        lemma_cross_bounds(*a, *b);
    }
    let n: i128 = (a.num as i128) * (b.den as i128) + (b.num as i128) * (a.den as i128);
    let d: i128 = (a.den as i128) * (b.den as i128);
    mk_value(n, d)
}

/// `a - b`: the exact rational difference, or `Overflow`.
pub fn value_sub(a: &Value, b: &Value) -> (r: Result<Value, CalculatorError>)
    requires
        valid_value(*a),
        valid_value(*b),
    ensures
        ({
            let (n, d) = rat_sub(a.num as int, a.den as int, b.num as int, b.den as int);
            match r {
                Ok(v) => fits(n, d) && v.num as int == n && v.den as int == d && valid_value(v),
                Err(e) => !fits(n, d) && e@ is Overflow,
            }
        }),
{
    proof {
        lemma_cross_bounds(*a, *b);
    }
    let n: i128 = (a.num as i128) * (b.den as i128) - (b.num as i128) * (a.den as i128);
    let d: i128 = (a.den as i128) * (b.den as i128);
    mk_value(n, d)
}

/// `a * b`: the exact rational product, or `Overflow`.
pub fn value_mul(a: &Value, b: &Value) -> (r: Result<Value, CalculatorError>)
    requires
        valid_value(*a),
        valid_value(*b),
    ensures
        ({
            let (n, d) = rat_mul(a.num as int, a.den as int, b.num as int, b.den as int);
            match r {
                Ok(v) => fits(n, d) && v.num as int == n && v.den as int == d && valid_value(v),
                Err(e) => !fits(n, d) && e@ is Overflow,
            }
        }),
{
    proof {
        lemma_cross_bounds(*a, *b);
    }
    let n: i128 = (a.num as i128) * (b.num as i128);
    let d: i128 = (a.den as i128) * (b.den as i128);
    mk_value(n, d)
}

/// `a / b` for `b != 0`: the exact rational quotient, or `Overflow`.
pub fn value_div(a: &Value, b: &Value) -> (r: Result<Value, CalculatorError>)
    requires
        valid_value(*a),
        valid_value(*b),
        b.num != 0,
    ensures
        ({
            let (n, d) = rat_div(a.num as int, a.den as int, b.num as int, b.den as int);
            match r {
                Ok(v) => fits(n, d) && v.num as int == n && v.den as int == d && valid_value(v),
                Err(e) => !fits(n, d) && e@ is Overflow,
            }
        }),
{
    proof {
        lemma_cross_bounds(*a, *b);
        assert((a.den as int) * (b.num as int) < 0 <==> b.num < 0) by (nonlinear_arith)
            requires
                1 <= a.den as int,
                b.num as int != 0,
        ;
        assert((a.den as int) * (b.num as int) != 0) by (nonlinear_arith)
            requires
                1 <= a.den as int,
                b.num as int != 0,
        ;
    }
    let n: i128 = (a.num as i128) * (b.den as i128);
    let d: i128 = (a.den as i128) * (b.num as i128);
    if d < 0 {
        mk_value(-n, -d)
    } else {
        mk_value(n, d)
    }
}

} // verus!
