//! Arithmetic on integers of any size, done by `num_bigint`.
//!
//! An integer crosses this boundary as a sign and a magnitude in digits of
//! 32 bits, least significant first. Nothing here is proved: each function
//! states what `num_bigint` documents of the operation it calls.

use vstd::prelude::*;
use num_bigint::{BigInt, Sign};
use num_traits::Euclid;
use std::cmp::Ordering;
use crate::heap::signed_value;
use vstd::arithmetic::power2::pow2;
use crate::value::{int_order, Order};

verus! {

/// `Ord::cmp` of `num_bigint::BigInt`, on the two integers built by
/// `BigInt::from_slice`. Claims that the result is the order of the two
/// integers by value.
#[verifier::external_body]
pub(crate) fn big_order(a_negative: bool, a: &[u32], b_negative: bool, b: &[u32]) -> (r: Order)
    ensures
        r == int_order(signed_value(a_negative, a@), signed_value(b_negative, b@)),
{
    let x = BigInt::from_slice(if a_negative { Sign::Minus } else { Sign::Plus }, a);
    let y = BigInt::from_slice(if b_negative { Sign::Minus } else { Sign::Plus }, b);
    match x.cmp(&y) {
        Ordering::Less => Order::Less,
        Ordering::Equal => Order::Equal,
        Ordering::Greater => Order::Greater,
    }
}

/// The quotient of two integers, rounded toward zero.
pub open spec fn truncated_quotient(a: int, b: int) -> int {
    let x = if a < 0 {
        -a
    } else {
        a
    };
    let y = if b < 0 {
        -b
    } else {
        b
    };
    if (a < 0) == (b < 0) {
        x / y
    } else {
        -(x / y)
    }
}

/// `Sub::sub` of `num_bigint::BigInt`. Claims that the result is the
/// difference of the two integers.
#[verifier::external_body]
pub(crate) fn big_sub(a_negative: bool, a: &[u32], b_negative: bool, b: &[u32]) -> (r: (
    bool,
    Vec<u32>,
))
    ensures
        signed_value(r.0, r.1@) == signed_value(a_negative, a@) - signed_value(b_negative, b@),
{
    let x = BigInt::from_slice(if a_negative { Sign::Minus } else { Sign::Plus }, a);
    let y = BigInt::from_slice(if b_negative { Sign::Minus } else { Sign::Plus }, b);
    match (x - y).to_u32_digits() {
        (Sign::Minus, digits) => (true, digits),
        (Sign::NoSign, digits) => (false, digits),
        (Sign::Plus, digits) => (false, digits),
    }
}

/// `Not::not` of `num_bigint::BigInt`. Claims that the result is the
/// integer with every bit of the two's complement of `a` inverted: minus
/// `a`, minus one.
#[verifier::external_body]
pub(crate) fn big_not(a_negative: bool, a: &[u32]) -> (r: (bool, Vec<u32>))
    ensures
        signed_value(r.0, r.1@) == -signed_value(a_negative, a@) - 1,
{
    let x = BigInt::from_slice(if a_negative { Sign::Minus } else { Sign::Plus }, a);
    match (!x).to_u32_digits() {
        (Sign::Minus, digits) => (true, digits),
        (Sign::NoSign, digits) => (false, digits),
        (Sign::Plus, digits) => (false, digits),
    }
}

/// `Shl::shl` of `num_bigint::BigInt` by a `usize`. Claims that the result
/// is `a` times 2 to the power `shift`. The shift is no more than the bits
/// of the largest heap that a process may have: `num_bigint` allocates the
/// result whole.
#[verifier::external_body]
pub(crate) fn big_shl(a_negative: bool, a: &[u32], shift: usize) -> (r: (bool, Vec<u32>))
    requires
        shift <= 4294967295,
    ensures
        signed_value(r.0, r.1@) == signed_value(a_negative, a@) * pow2(shift as nat),
{
    let x = BigInt::from_slice(if a_negative { Sign::Minus } else { Sign::Plus }, a);
    match (x << shift).to_u32_digits() {
        (Sign::Minus, digits) => (true, digits),
        (Sign::NoSign, digits) => (false, digits),
        (Sign::Plus, digits) => (false, digits),
    }
}

/// `Shr::shr` of `num_bigint::BigInt` by a `usize`. Claims that the result
/// is `a` divided by 2 to the power `shift`, rounded down.
#[verifier::external_body]
pub(crate) fn big_shr(a_negative: bool, a: &[u32], shift: usize) -> (r: (bool, Vec<u32>))
    ensures
        signed_value(r.0, r.1@) == signed_value(a_negative, a@) / (pow2(shift as nat) as int),
{
    let x = BigInt::from_slice(if a_negative { Sign::Minus } else { Sign::Plus }, a);
    match (x >> shift).to_u32_digits() {
        (Sign::Minus, digits) => (true, digits),
        (Sign::NoSign, digits) => (false, digits),
        (Sign::Plus, digits) => (false, digits),
    }
}

/// `Div::div` of `num_bigint::BigInt`. Claims that the result is the
/// quotient of the two integers, rounded toward zero. The divisor is not
/// zero: `num_bigint` panics on such a division.
#[verifier::external_body]
pub(crate) fn big_div(a_negative: bool, a: &[u32], b_negative: bool, b: &[u32]) -> (r: (
    bool,
    Vec<u32>,
))
    requires
        signed_value(b_negative, b@) != 0,
    ensures
        signed_value(r.0, r.1@) == truncated_quotient(
            signed_value(a_negative, a@),
            signed_value(b_negative, b@),
        ),
{
    let x = BigInt::from_slice(if a_negative { Sign::Minus } else { Sign::Plus }, a);
    let y = BigInt::from_slice(if b_negative { Sign::Minus } else { Sign::Plus }, b);
    match (x / y).to_u32_digits() {
        (Sign::Minus, digits) => (true, digits),
        (Sign::NoSign, digits) => (false, digits),
        (Sign::Plus, digits) => (false, digits),
    }
}

/// `Mul::mul` of `num_bigint::BigInt`. Claims that the result is the
/// product of the two integers.
#[verifier::external_body]
pub(crate) fn big_mul(a_negative: bool, a: &[u32], b_negative: bool, b: &[u32]) -> (r: (
    bool,
    Vec<u32>,
))
    ensures
        signed_value(r.0, r.1@) == signed_value(a_negative, a@) * signed_value(b_negative, b@),
{
    let x = BigInt::from_slice(if a_negative { Sign::Minus } else { Sign::Plus }, a);
    let y = BigInt::from_slice(if b_negative { Sign::Minus } else { Sign::Plus }, b);
    match (x * y).to_u32_digits() {
        (Sign::Minus, digits) => (true, digits),
        (Sign::NoSign, digits) => (false, digits),
        (Sign::Plus, digits) => (false, digits),
    }
}

/// `num_traits::Euclid::div_euclid` of `num_bigint::BigInt`. Claims that
/// the result is the quotient of the first integer by the second whose
/// remainder is not negative; with a positive divisor that is the quotient
/// rounded down. The divisor is positive: `num_bigint` panics on a division
/// by zero.
#[verifier::external_body]
pub(crate) fn big_div_floor(a_negative: bool, a: &[u32], b: &[u32]) -> (r: (bool, Vec<u32>))
    requires
        signed_value(false, b@) > 0,
    ensures
        signed_value(r.0, r.1@) == signed_value(a_negative, a@) / signed_value(false, b@),
{
    let x = BigInt::from_slice(if a_negative { Sign::Minus } else { Sign::Plus }, a);
    let y = BigInt::from_slice(Sign::Plus, b);
    match x.div_euclid(&y).to_u32_digits() {
        (Sign::Minus, digits) => (true, digits),
        (Sign::NoSign, digits) => (false, digits),
        (Sign::Plus, digits) => (false, digits),
    }
}

} // verus!
