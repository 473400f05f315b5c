//! Trusted boundary to the arbitrary-precision integers of `num_bigint`.
//!
//! Each value of `num_bigint::BigInt` stands for a mathematical integer;
//! the uninterpreted function `int_of` names that integer, and every
//! wrapper below states what the operation it calls does to it. All
//! rational arithmetic of this crate is verified code built on these
//! wrappers.

use vstd::prelude::*;

verus! {

#[verifier::external_type_specification]
#[verifier::external_body]
pub struct ExBigInt(num_bigint::BigInt);

/// The mathematical integer that a `num_bigint::BigInt` holds.
pub uninterp spec fn int_of(x: num_bigint::BigInt) -> int;

/// Relies on `BigInt::from(i64)`: an exact conversion.
#[verifier::external_body]
pub fn int_from_i64(v: i64) -> (r: num_bigint::BigInt)
    ensures
        int_of(r) == v as int,
{
    num_bigint::BigInt::from(v)
}

/// Relies on `Clone` for `BigInt`: the copy holds the same integer.
pub assume_specification[ <num_bigint::BigInt as Clone>::clone ](
    x: &num_bigint::BigInt,
) -> (r: num_bigint::BigInt)
    ensures
        int_of(r) == int_of(*x),
;

/// Relies on `BigInt` addition: the exact sum, no overflow.
#[verifier::external_body]
pub fn int_add(a: &num_bigint::BigInt, b: &num_bigint::BigInt) -> (r: num_bigint::BigInt)
    ensures
        int_of(r) == int_of(*a) + int_of(*b),
{
    a + b
}

/// Relies on `BigInt` subtraction: the exact difference.
#[verifier::external_body]
pub fn int_sub(a: &num_bigint::BigInt, b: &num_bigint::BigInt) -> (r: num_bigint::BigInt)
    ensures
        int_of(r) == int_of(*a) - int_of(*b),
{
    a - b
}

/// Relies on `BigInt` multiplication: the exact product.
#[verifier::external_body]
pub fn int_mul(a: &num_bigint::BigInt, b: &num_bigint::BigInt) -> (r: num_bigint::BigInt)
    ensures
        int_of(r) == int_of(*a) * int_of(*b),
{
    a * b
}

/// Relies on `PartialOrd` for `BigInt`: the order of the integers held.
#[verifier::external_body]
pub fn int_lt(a: &num_bigint::BigInt, b: &num_bigint::BigInt) -> (r: bool)
    ensures
        r == (int_of(*a) < int_of(*b)),
{
    a < b
}

/// Relies on `PartialEq` for `BigInt`: equality of the integers held.
#[verifier::external_body]
pub fn int_eq(a: &num_bigint::BigInt, b: &num_bigint::BigInt) -> (r: bool)
    ensures
        r == (int_of(*a) == int_of(*b)),
{
    a == b
}

} // verus!
