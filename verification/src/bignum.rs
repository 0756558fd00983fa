//! Arbitrary-precision unsigned arithmetic, consumed as a capability.
//!
//! The attack works on numbers far wider than any machine word, so the
//! values themselves live in `rsa::BigUint`. Each operation the logic needs
//! is wrapped once, with a contract over the natural number `big(..)` that a
//! `BigUint` stands for; everything built on top is verified against those
//! contracts.

use vstd::prelude::*;
use vstd::arithmetic::power::pow;
use vstd::arithmetic::power2::pow2;

verus! {

#[verifier::external_type_specification]
#[verifier::external_body]
pub struct ExBigUint(rsa::BigUint);

/// The natural number that a `rsa::BigUint` stands for.
pub uninterp spec fn big(b: rsa::BigUint) -> nat;

/// `b^e` over natural numbers.
pub open spec fn pow_n(b: nat, e: nat) -> nat {
    pow(b as int, e) as nat
}

/// Relies on `<rsa::BigUint as From<u64>>::from`: the value of the result is
/// the value of the argument.
#[verifier::external_body]
pub fn big_from_u64(x: u64) -> (r: rsa::BigUint)
    ensures
        big(r) == x as nat,
{
    rsa::BigUint::from(x)
}

/// Relies on `<rsa::BigUint as Clone>::clone`: the copy stands for the same
/// number.
#[verifier::external_body]
pub fn big_clone(a: &rsa::BigUint) -> (r: rsa::BigUint)
    ensures
        big(r) == big(*a),
{
    a.clone()
}

/// Relies on `<&rsa::BigUint as Add>::add`.
#[verifier::external_body]
pub fn big_add(a: &rsa::BigUint, b: &rsa::BigUint) -> (r: rsa::BigUint)
    ensures
        big(r) == big(*a) + big(*b),
{
    a + b
}

/// Relies on `<&rsa::BigUint as Sub>::sub`, which panics when the
/// subtrahend exceeds the minuend; the precondition rules that out.
#[verifier::external_body]
pub fn big_sub(a: &rsa::BigUint, b: &rsa::BigUint) -> (r: rsa::BigUint)
    requires
        big(*b) <= big(*a),
    ensures
        big(r) == big(*a) - big(*b),
{
    a - b
}

/// Relies on `<&rsa::BigUint as Mul>::mul`.
#[verifier::external_body]
pub fn big_mul(a: &rsa::BigUint, b: &rsa::BigUint) -> (r: rsa::BigUint)
    ensures
        big(r) == big(*a) * big(*b),
{
    a * b
}

/// Relies on `num_integer::Integer::div_rem` for `rsa::BigUint`: floored
/// quotient and remainder. Division by zero panics; the precondition rules
/// it out.
#[verifier::external_body]
pub fn big_div_rem(a: &rsa::BigUint, d: &rsa::BigUint) -> (r: (rsa::BigUint, rsa::BigUint))
    requires
        big(*d) != 0,
    ensures
        big(r.0) == big(*a) / big(*d),
        big(r.1) == big(*a) % big(*d),
{
    num_integer::Integer::div_rem(a, d)
}

/// Relies on `<&rsa::BigUint as Shl<usize>>::shl`: a left shift multiplies
/// by a power of two.
#[verifier::external_body]
pub fn big_shl(a: &rsa::BigUint, s: usize) -> (r: rsa::BigUint)
    ensures
        big(r) == big(*a) * pow2(s as nat),
{
    a << s
}

/// Relies on `<&rsa::BigUint as Shr<usize>>::shr`: a right shift divides by
/// a power of two, rounding down.
#[verifier::external_body]
pub fn big_shr(a: &rsa::BigUint, s: usize) -> (r: rsa::BigUint)
    ensures
        big(r) == big(*a) / pow2(s as nat),
{
    a >> s
}

/// Relies on `rsa::BigUint::modpow`: returns `(self ^ exponent) % modulus`
/// and panics only on a zero modulus, which the precondition rules out.
#[verifier::external_body]
pub fn big_modpow(base: &rsa::BigUint, exponent: &rsa::BigUint, modulus: &rsa::BigUint) -> (r:
    rsa::BigUint)
    requires
        big(*modulus) != 0,
    ensures
        big(r) == pow_n(big(*base), big(*exponent)) % big(*modulus),
{
    base.modpow(exponent, modulus)
}

/// Relies on `rsa::BigUint::trailing_zeros`: the count of least-significant
/// zero bits, or `None` for the number zero.
#[verifier::external_body]
pub fn big_trailing_zeros(a: &rsa::BigUint) -> (r: Option<usize>)
    ensures
        r is Some <==> big(*a) != 0,
        r matches Some(z) ==> big(*a) % pow2(z as nat) == 0 && (big(*a) / pow2(z as nat)) % 2
            == 1,
{
    a.trailing_zeros()
}

/// Relies on `num_integer::Integer::is_even` for `rsa::BigUint`.
#[verifier::external_body]
pub fn big_is_even(a: &rsa::BigUint) -> (r: bool)
    ensures
        r == (big(*a) % 2 == 0),
{
    num_integer::Integer::is_even(a)
}

/// Relies on `num_traits::Zero::is_zero` for `rsa::BigUint`.
#[verifier::external_body]
pub fn big_is_zero(a: &rsa::BigUint) -> (r: bool)
    ensures
        r == (big(*a) == 0),
{
    num_traits::Zero::is_zero(a)
}

/// Relies on `<rsa::BigUint as PartialEq>::eq`: two `BigUint`s compare equal
/// exactly when they stand for the same number.
#[verifier::external_body]
pub fn big_eq(a: &rsa::BigUint, b: &rsa::BigUint) -> (r: bool)
    ensures
        r == (big(*a) == big(*b)),
{
    a == b
}

/// Relies on `num_traits::ToPrimitive::to_usize` for `rsa::BigUint`: the
/// value as a `usize`, or `None` when it does not fit.
#[verifier::external_body]
pub fn big_to_usize(a: &rsa::BigUint) -> (r: Option<usize>)
    ensures
        r is Some <==> big(*a) <= usize::MAX as nat,
        r matches Some(v) ==> v as nat == big(*a),
{
    num_traits::ToPrimitive::to_usize(a)
}

} // verus!
