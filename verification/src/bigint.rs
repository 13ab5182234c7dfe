//! Integers of any size, from `num_bigint`. A `BigInt` is carried through as
//! it is; what the contracts say of one, they say of the number it holds.

use crate::decimal::decimal_value;
use crate::decimal::signed_decimal_text;
use crate::text::all_digits;
use num_bigint::BigInt;
use num_traits::pow::Pow;
use vstd::arithmetic::power::pow;
use vstd::prelude::*;

verus! {

#[verifier::external_type_specification]
#[verifier::external_body]
pub struct ExBigInt(BigInt);

/// The number that a big integer holds.
pub uninterp spec fn bigint_value(n: BigInt) -> int;

/// `BigInt::parse_bytes` in base ten, on the bytes of `digits`: a text of
/// one or more decimal digits is read as the number that it denotes.
#[verifier::external_body]
pub(crate) fn parse_decimal(digits: &str) -> (r: Option<BigInt>)
    ensures
        digits@.len() > 0 && all_digits(digits@) ==> r is Some && bigint_value(r->0)
            == decimal_value(digits@),
{
    BigInt::parse_bytes(digits.as_bytes(), 10)
}

/// `BigInt::from` on an `i32`: the big integer holds the same number.
#[verifier::external_body]
pub(crate) fn from_i32(n: i32) -> (r: BigInt)
    ensures
        bigint_value(r) == n,
{
    BigInt::from(n)
}

/// `Pow::pow` of a `BigInt` with a `u32` exponent: the base, multiplied with
/// itself `exponent` times; the power zero is one.
#[verifier::external_body]
pub(crate) fn power(base: BigInt, exponent: u32) -> (r: BigInt)
    ensures
        bigint_value(r) == pow(bigint_value(base), exponent as nat),
{
    Pow::pow(base, exponent)
}

/// `Mul::mul` of two `BigInt`s, written `*`: the product of the two numbers.
#[verifier::external_body]
pub(crate) fn product(a: BigInt, b: BigInt) -> (r: BigInt)
    ensures
        bigint_value(r) == bigint_value(a) * bigint_value(b),
{
    a * b
}

/// `Display` of a `BigInt`, through `format!`: its decimal digits without
/// leading zeros, behind a `-` if the number is negative.
#[verifier::external_body]
pub(crate) fn to_decimal(n: &BigInt) -> (r: String)
    ensures
        r@ == signed_decimal_text(bigint_value(*n)),
{
    format!("{}", n)
}

} // verus!
