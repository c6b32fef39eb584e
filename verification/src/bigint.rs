//! The orders of the fields as arbitrary-precision integers, through num-bigint.
use num_bigint::BigUint;
use vstd::prelude::*;

verus! {

#[verifier::external_type_specification]
#[verifier::external_body]
pub struct ExBigUint(BigUint);

/// The number that num-bigint's `BigUint::from(n)` builds from a `u32`.
pub uninterp spec fn biguint_from_u32_result(n: u32) -> BigUint;

/// num-bigint's `BigUint::from(u32)`. The contract claims only that the result is
/// a function of `n`; its digits are not modelled.
#[verifier::external_body]
pub(crate) fn biguint_from_u32(n: u32) -> (r: BigUint)
    ensures
        r == biguint_from_u32_result(n),
{
    BigUint::from(n)
}

/// The number that num-bigint's `BigUint::pow(base, exponent)` computes.
pub uninterp spec fn biguint_pow_result(base: BigUint, exponent: u32) -> BigUint;

/// num-bigint's `BigUint::pow`. The contract claims only that the result is a
/// function of the base and the exponent; its digits are not modelled.
#[verifier::external_body]
pub(crate) fn biguint_pow(base: &BigUint, exponent: u32) -> (r: BigUint)
    ensures
        r == biguint_pow_result(*base, exponent),
{
    base.pow(exponent)
}

} // verus!
