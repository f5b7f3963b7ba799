//! Arbitrary-precision integers and rationals of `num-bigint` and
//! `num-rational`, seen through their mathematical values.
use num_bigint::BigInt;
use num_rational::Ratio;
use vstd::prelude::*;

verus! {

#[verifier::external_type_specification]
#[verifier::external_body]
pub struct ExBigInt(BigInt);

#[verifier::external_type_specification]
#[verifier::external_body]
#[verifier::reject_recursive_types(T)]
pub struct ExRatio<T>(Ratio<T>);

/// The integer that a `BigInt` stands for.
pub uninterp spec fn int_of(b: BigInt) -> int;

/// The numerator of a `BigRational`, as `num-rational` stores it.
pub uninterp spec fn numer_of(r: Ratio<BigInt>) -> int;

/// The denominator of a `BigRational`, as `num-rational` stores it.
pub uninterp spec fn denom_of(r: Ratio<BigInt>) -> int;

/// Two fractions `a/b` and `c/d` denote the same rational number.
pub open spec fn frac_eq(a: int, b: int, c: int, d: int) -> bool {
    a * d == c * b
}

/// A rational value whose stored denominator is positive, as every value
/// built by the operations below is.
pub open spec fn rat_ok(r: Ratio<BigInt>) -> bool {
    denom_of(r) > 0
}

/// Relies on `BigInt: From<u64>`: the same value.
#[verifier::external_body]
pub(crate) fn big_from_u64(v: u64) -> (r: BigInt)
    ensures
        int_of(r) == v as int,
{
    BigInt::from(v)
}

/// Relies on `BigInt: Clone`: the copy has the same value.
#[verifier::external_body]
pub(crate) fn big_clone(a: &BigInt) -> (r: BigInt)
    ensures
        int_of(r) == int_of(*a),
{
    a.clone()
}

/// Relies on `Neg for &BigInt`: the negated value.
#[verifier::external_body]
pub(crate) fn big_neg(a: &BigInt) -> (r: BigInt)
    ensures
        int_of(r) == -int_of(*a),
{
    -a
}

/// Relies on `Sub for &BigInt`: the exact difference.
#[verifier::external_body]
pub(crate) fn big_sub(a: &BigInt, b: &BigInt) -> (r: BigInt)
    ensures
        int_of(r) == int_of(*a) - int_of(*b),
{
    a - b
}

/// Relies on `PartialEq for BigInt`: equality of values.
#[verifier::external_body]
pub(crate) fn big_eq(a: &BigInt, b: &BigInt) -> (r: bool)
    ensures
        r == (int_of(*a) == int_of(*b)),
{
    a == b
}

/// Relies on `PartialOrd for BigInt`: the order of values.
#[verifier::external_body]
pub(crate) fn big_lt(a: &BigInt, b: &BigInt) -> (r: bool)
    ensures
        r == (int_of(*a) < int_of(*b)),
{
    a < b
}

/// Relies on `BigRational::zero`: the fraction 0/1.
#[verifier::external_body]
pub(crate) fn rat_zero() -> (r: Ratio<BigInt>)
    ensures
        numer_of(r) == 0,
        denom_of(r) == 1,
{
    <Ratio<BigInt> as num_traits::Zero>::zero()
}

/// Relies on `BigRational::one`: the fraction 1/1.
#[verifier::external_body]
pub(crate) fn rat_one() -> (r: Ratio<BigInt>)
    ensures
        numer_of(r) == 1,
        denom_of(r) == 1,
{
    <Ratio<BigInt> as num_traits::One>::one()
}

/// Relies on `Ratio::from_integer`: numerator `v`, denominator 1.
#[verifier::external_body]
pub(crate) fn rat_from_integer(v: BigInt) -> (r: Ratio<BigInt>)
    ensures
        numer_of(r) == int_of(v),
        denom_of(r) == 1,
{
    Ratio::from_integer(v)
}

/// Relies on `Mul for Ratio`: the product, reduced, with a positive
/// denominator.
#[verifier::external_body]
pub(crate) fn rat_mul(a: Ratio<BigInt>, b: Ratio<BigInt>) -> (r: Ratio<BigInt>)
    requires
        rat_ok(a),
        rat_ok(b),
    ensures
        rat_ok(r),
        frac_eq(numer_of(r), denom_of(r), numer_of(a) * numer_of(b), denom_of(a) * denom_of(b)),
{
    a * b
}

/// Relies on `Div for Ratio`: the quotient, reduced, with a positive
/// denominator; it panics on a zero divisor, which `requires` rules out.
#[verifier::external_body]
pub(crate) fn rat_div(a: Ratio<BigInt>, b: Ratio<BigInt>) -> (r: Ratio<BigInt>)
    requires
        rat_ok(a),
        rat_ok(b),
        numer_of(b) != 0,
    ensures
        rat_ok(r),
        frac_eq(numer_of(r), denom_of(r), numer_of(a) * denom_of(b), denom_of(a) * numer_of(b)),
{
    a / b
}

/// Relies on `Add for Ratio`: the sum, reduced, with a positive denominator.
#[verifier::external_body]
pub(crate) fn rat_add(a: Ratio<BigInt>, b: Ratio<BigInt>) -> (r: Ratio<BigInt>)
    requires
        rat_ok(a),
        rat_ok(b),
    ensures
        rat_ok(r),
        frac_eq(
            numer_of(r),
            denom_of(r),
            numer_of(a) * denom_of(b) + numer_of(b) * denom_of(a),
            denom_of(a) * denom_of(b),
        ),
{
    a + b
}

/// Truncating division of integers, rounding towards zero.
pub open spec fn trunc_div(n: int, d: int) -> int {
    if n >= 0 {
        n / d
    } else {
        -((-n) / d)
    }
}

/// Relies on `Ratio::to_integer`: the numerator divided by the denominator,
/// rounded towards zero.
#[verifier::external_body]
pub(crate) fn rat_to_integer(a: &Ratio<BigInt>) -> (r: BigInt)
    requires
        rat_ok(*a),
    ensures
        int_of(r) == trunc_div(numer_of(*a), denom_of(*a)),
{
    a.to_integer()
}

/// Relies on `PartialEq for Ratio`: equality of the rational values, which
/// `num-rational` decides by comparing them, not their stored form.
#[verifier::external_body]
pub(crate) fn rat_eq(a: &Ratio<BigInt>, b: &Ratio<BigInt>) -> (r: bool)
    requires
        rat_ok(*a),
        rat_ok(*b),
    ensures
        r == frac_eq(numer_of(*a), denom_of(*a), numer_of(*b), denom_of(*b)),
{
    a == b
}

} // verus!
