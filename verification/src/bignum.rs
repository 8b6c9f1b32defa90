//! Trusted boundary around `num_bigint::BigUint`.
//!
//! Exchange rates are exact rationals whose numerator and denominator are
//! arbitrary-precision naturals. The arithmetic itself is done by
//! `num_bigint`; this module declares the type to the verifier and gives each
//! operation the library relies on a contract over the number's `u32` digit
//! sequence, least significant digit first, as `BigUint::to_u32_digits`
//! presents it.

use vstd::prelude::*;

verus! {

#[verifier::external_type_specification]
#[verifier::external_body]
pub struct ExBigUint(num_bigint::BigUint);

/// The `u32` digits a `BigUint` holds, least significant first.
pub uninterp spec fn big_digits(b: num_bigint::BigUint) -> Seq<u32>;

/// The natural number denoted by a digit sequence, least significant first.
pub open spec fn digits_val(s: Seq<u32>) -> nat
    decreases s.len(),
{
    if s.len() == 0 {
        0
    } else {
        s[0] as nat + 0x1_0000_0000 * digits_val(s.subrange(1, s.len() as int))
    }
}

/// The natural number a `BigUint` denotes.
pub open spec fn big_val(b: num_bigint::BigUint) -> nat {
    digits_val(big_digits(b))
}

/// Relies on `<BigUint as From<u128>>::from`: the result denotes exactly the
/// given machine integer.
#[verifier::external_body]
pub fn big_from_u128(x: u128) -> (r: num_bigint::BigUint)
    ensures
        digits_val(big_digits(r)) == x as nat,
{
    num_bigint::BigUint::from(x)
}

/// Relies on `<&BigUint as Mul<&BigUint>>::mul`: multiplication of
/// arbitrary-precision naturals is exact.
#[verifier::external_body]
pub fn big_mul(a: &num_bigint::BigUint, b: &num_bigint::BigUint) -> (r: num_bigint::BigUint)
    ensures
        digits_val(big_digits(r)) == digits_val(big_digits(*a)) * digits_val(big_digits(*b)),
{
    a * b
}

/// Relies on `<BigUint as Ord>::cmp` (through `<`): comparison is by
/// numeric value.
#[verifier::external_body]
pub fn big_lt(a: &num_bigint::BigUint, b: &num_bigint::BigUint) -> (r: bool)
    ensures
        r == (digits_val(big_digits(*a)) < digits_val(big_digits(*b))),
{
    a < b
}

/// Relies on `<BigUint as PartialEq>::eq`: equality is by numeric value
/// (digit vectors are kept normalized, without leading zeros).
#[verifier::external_body]
pub fn big_eq(a: &num_bigint::BigUint, b: &num_bigint::BigUint) -> (r: bool)
    ensures
        r == (digits_val(big_digits(*a)) == digits_val(big_digits(*b))),
{
    a == b
}

/// Relies on `<BigUint as Clone>::clone`: the copy denotes the same number.
#[verifier::external_body]
pub fn big_clone(a: &num_bigint::BigUint) -> (r: num_bigint::BigUint)
    ensures
        digits_val(big_digits(r)) == digits_val(big_digits(*a)),
{
    a.clone()
}

} // verus!
