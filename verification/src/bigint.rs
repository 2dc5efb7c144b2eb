//! The arbitrary-precision integers of `num_bigint`, as the exact kernel uses
//! them. Each item below is trusted: its contract restates what the crate
//! documents of the operation, and nothing here is proved.

use vstd::prelude::*;

use num_bigint::BigInt;
use num_traits::{Signed, ToPrimitive, Zero};

verus! {

/// `num_bigint::BigInt`, carried through the kernel as an opaque value.
#[verifier::external_type_specification]
#[verifier::external_body]
pub struct ExBigInt(BigInt);

/// The integer that a `BigInt` denotes. `num_bigint` stores it as a sign and
/// a magnitude; every operation below is stated over this value.
pub uninterp spec fn big_value(value: BigInt) -> int;

/// `BigInt::from(i128)`: the big integer equal to `value`.
#[verifier::external_body]
pub fn big_from_i128(value: i128) -> (result: BigInt)
    ensures
        big_value(result) == value,
{
    BigInt::from(value)
}

/// `Clone::clone` on `BigInt`: an equal big integer.
#[verifier::external_body]
pub fn big_clone(value: &BigInt) -> (result: BigInt)
    ensures
        big_value(result) == big_value(*value),
{
    value.clone()
}

/// `&BigInt + &BigInt`: the exact sum.
#[verifier::external_body]
pub fn big_add(left: &BigInt, right: &BigInt) -> (result: BigInt)
    ensures
        big_value(result) == big_value(*left) + big_value(*right),
{
    left + right
}

/// `&BigInt - &BigInt`: the exact difference.
#[verifier::external_body]
pub fn big_sub(left: &BigInt, right: &BigInt) -> (result: BigInt)
    ensures
        big_value(result) == big_value(*left) - big_value(*right),
{
    left - right
}

/// `&BigInt * &BigInt`: the exact product.
#[verifier::external_body]
pub fn big_mul(left: &BigInt, right: &BigInt) -> (result: BigInt)
    ensures
        big_value(result) == big_value(*left) * big_value(*right),
{
    left * right
}

/// `-&BigInt`: the exact negation.
#[verifier::external_body]
pub fn big_neg(value: &BigInt) -> (result: BigInt)
    ensures
        big_value(result) == -big_value(*value),
{
    -value
}

/// `&BigInt / &BigInt` for a positive divisor: the quotient truncated toward
/// zero (`num_integer::Integer::div_rem`).
#[verifier::external_body]
pub fn big_div(left: &BigInt, right: &BigInt) -> (result: BigInt)
    requires
        big_value(*right) > 0,
    ensures
        big_value(*left) >= 0 ==> big_value(result) == big_value(*left) / big_value(*right),
        big_value(*left) < 0 ==> big_value(result) == -((-big_value(*left)) / big_value(*right)),
{
    left / right
}

/// `&BigInt % &BigInt` for a positive divisor: the remainder of truncated
/// division, which takes the sign of the dividend.
#[verifier::external_body]
pub fn big_rem(left: &BigInt, right: &BigInt) -> (result: BigInt)
    requires
        big_value(*right) > 0,
    ensures
        big_value(*left) >= 0 ==> big_value(result) == big_value(*left) % big_value(*right),
        big_value(*left) < 0 ==> big_value(result) == -((-big_value(*left)) % big_value(*right)),
{
    left % right
}

/// `Zero::is_zero` on `BigInt`.
#[verifier::external_body]
pub fn big_is_zero(value: &BigInt) -> (result: bool)
    ensures
        result == (big_value(*value) == 0),
{
    value.is_zero()
}

/// `Signed::is_negative` on `BigInt`.
#[verifier::external_body]
pub fn big_is_negative(value: &BigInt) -> (result: bool)
    ensures
        result == (big_value(*value) < 0),
{
    value.is_negative()
}

/// `ToPrimitive::to_i64` on `BigInt`: the value when it fits in `i64`,
/// otherwise `None`.
#[verifier::external_body]
pub fn big_to_i64(value: &BigInt) -> (result: Option<i64>)
    ensures
        result is Some <==> i64::MIN <= big_value(*value) <= i64::MAX,
        result matches Some(v) ==> v == big_value(*value),
{
    value.to_i64()
}

} // verus!
