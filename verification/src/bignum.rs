//! Arbitrary-precision signed integers, modelled for verification.
//!
//! A `num_bigint::BigInt` is a sign together with a little-endian sequence of
//! magnitude limbs. The two uninterpreted names below stand for that content;
//! `big_val` reads the mathematical value off them. Every operation the
//! library needs goes through a trusted wrapper whose contract states, over
//! `big_val`, exactly what the `num_bigint` source and documentation promise
//! of the call.

use vstd::prelude::*;

verus! {

use crate::arith::{abs1, trunc_div, trunc_rem};
use vstd::arithmetic::power2::pow2;

#[verifier::external_type_specification]
#[verifier::external_body]
pub struct ExBigInt(num_bigint::BigInt);

#[verifier::external_type_specification]
#[verifier::external_body]
pub struct ExThreadRng(rand::rngs::ThreadRng);

/// The 64-bit little-endian limbs of a big integer's magnitude.
pub uninterp spec fn mag_limbs(b: num_bigint::BigInt) -> Seq<u64>;

/// Whether a big integer's value is negative.
pub uninterp spec fn is_neg(b: num_bigint::BigInt) -> bool;

/// Value of a little-endian limb sequence.
pub open spec fn limbs_val(s: Seq<u64>) -> int
    decreases s.len(),
{
    if s.len() == 0 {
        0
    } else {
        s[0] + (pow2(64) as int) * limbs_val(s.drop_first())
    }
}

/// The mathematical value of a big integer.
pub open spec fn big_val(b: num_bigint::BigInt) -> int {
    if is_neg(b) {
        -limbs_val(mag_limbs(b))
    } else {
        limbs_val(mag_limbs(b))
    }
}

/// The values of a sequence of big integers.
pub open spec fn vals(s: Seq<num_bigint::BigInt>) -> Seq<int> {
    s.map_values(|c: num_bigint::BigInt| big_val(c))
}

/// Relies on `Clone for BigInt`: the copy has the same sign and limbs.
pub assume_specification[ <num_bigint::BigInt as Clone>::clone ](b: &num_bigint::BigInt) -> (r:
    num_bigint::BigInt)
    ensures
        mag_limbs(r) == mag_limbs(*b),
        is_neg(r) == is_neg(*b),
;

/// Relies on `BigInt: From<i64>`: exact conversion.
#[verifier::external_body]
pub fn bn_from_i64(x: i64) -> (r: num_bigint::BigInt)
    ensures
        big_val(r) == x as int,
{
    num_bigint::BigInt::from(x)
}

/// Builds a big integer from an unsigned machine word, split at 32 bits so
/// that both halves fit the signed conversion.
pub fn bn_u64(x: u64) -> (r: num_bigint::BigInt)
    ensures
        big_val(r) == x as int,
{
    let hi = bn_from_i64((x / 0x1_0000_0000) as i64);
    let lo = bn_from_i64((x % 0x1_0000_0000) as i64);
    proof {
        vstd::arithmetic::power2::lemma2_to64();
        vstd::arithmetic::div_mod::lemma_fundamental_div_mod(x as int, 0x1_0000_0000);
    }
    bn_plus(&bn_shl(&hi, 32), &lo)
}

/// Relies on `Add for &BigInt`: exact integer addition.
#[verifier::external_body]
pub fn bn_plus(a: &num_bigint::BigInt, b: &num_bigint::BigInt) -> (r: num_bigint::BigInt)
    ensures
        big_val(r) == big_val(*a) + big_val(*b),
{
    a + b
}

/// Relies on `Sub for &BigInt`: exact integer subtraction.
#[verifier::external_body]
pub fn bn_minus(a: &num_bigint::BigInt, b: &num_bigint::BigInt) -> (r: num_bigint::BigInt)
    ensures
        big_val(r) == big_val(*a) - big_val(*b),
{
    a - b
}

/// Relies on `Mul for &BigInt`: exact integer multiplication.
#[verifier::external_body]
pub fn bn_times(a: &num_bigint::BigInt, b: &num_bigint::BigInt) -> (r: num_bigint::BigInt)
    ensures
        big_val(r) == big_val(*a) * big_val(*b),
{
    a * b
}

/// Relies on `Div for &BigInt`: division truncated toward zero, which panics
/// on a zero divisor.
#[verifier::external_body]
pub fn bn_div_trunc(a: &num_bigint::BigInt, b: &num_bigint::BigInt) -> (r: num_bigint::BigInt)
    requires
        big_val(*b) != 0,
    ensures
        big_val(r) == trunc_div(big_val(*a), big_val(*b)),
{
    a / b
}

/// Relies on `Rem for &BigInt`: remainder of division truncated toward zero
/// (signed like the dividend), which panics on a zero divisor.
#[verifier::external_body]
pub fn bn_rem_trunc(a: &num_bigint::BigInt, b: &num_bigint::BigInt) -> (r: num_bigint::BigInt)
    requires
        big_val(*b) != 0,
    ensures
        big_val(r) == trunc_rem(big_val(*a), big_val(*b)),
{
    a % b
}

/// Relies on `num_traits::Euclid::rem_euclid` for `BigInt`: for a positive
/// modulus the result is the least non-negative residue.
#[verifier::external_body]
pub fn bn_rem_euclid(a: &num_bigint::BigInt, b: &num_bigint::BigInt) -> (r: num_bigint::BigInt)
    requires
        big_val(*b) > 0,
    ensures
        big_val(r) == big_val(*a) % big_val(*b),
{
    num_traits::Euclid::rem_euclid(a, b)
}

/// Relies on `Shl<u64> for &BigInt`: a left shift multiplies by a power of
/// two.
#[verifier::external_body]
pub fn bn_shl(a: &num_bigint::BigInt, e: u64) -> (r: num_bigint::BigInt)
    ensures
        big_val(r) == big_val(*a) * pow2(e as nat),
{
    a << e
}

/// Relies on `Ord for BigInt`: comparison agrees with the integer order.
#[verifier::external_body]
pub fn bn_lt(a: &num_bigint::BigInt, b: &num_bigint::BigInt) -> (r: bool)
    ensures
        r == (big_val(*a) < big_val(*b)),
{
    a < b
}

/// Relies on `PartialEq for BigInt`: equality agrees with the values.
#[verifier::external_body]
pub fn bn_eq(a: &num_bigint::BigInt, b: &num_bigint::BigInt) -> (r: bool)
    ensures
        r == (big_val(*a) == big_val(*b)),
{
    a == b
}

/// Relies on `BigInt::bits`: the fewest bits needed for the magnitude, zero
/// for a zero value.
#[verifier::external_body]
pub fn bn_bits(a: &num_bigint::BigInt) -> (r: u64)
    ensures
        big_val(*a) == 0 ==> r == 0,
        big_val(*a) != 0 ==> r >= 1 && pow2((r - 1) as nat) <= abs1(big_val(*a)) < pow2(r as nat),
{
    a.bits()
}

/// Relies on `BigInt::modinv`: for a modulus above one it returns the unique
/// solution of `a * x == 1 (mod modulus)` in `[0, modulus)` when one exists,
/// and `None` exactly when the extended-Euclid gcd is not one — in which case
/// no candidate below the modulus is an inverse.
#[verifier::external_body]
pub fn bn_modinv(a: &num_bigint::BigInt, modulus: &num_bigint::BigInt) -> (r: Option<
    num_bigint::BigInt,
>)
    requires
        big_val(*modulus) > 1,
    ensures
        r matches Some(v) ==> 0 <= big_val(v) < big_val(*modulus) && (big_val(v) * big_val(*a))
            % big_val(*modulus) == 1,
        r is None ==> forall|w: int|
            0 <= w < big_val(*modulus) ==> #[trigger] ((w * big_val(*a)) % big_val(*modulus))
                != 1,
{
    a.modinv(modulus)
}

/// Relies on `num_traits::ToPrimitive::to_i64`: succeeds exactly when the
/// value fits in an `i64`, returning that value.
#[verifier::external_body]
pub fn bn_to_i64(a: &num_bigint::BigInt) -> (r: Option<i64>)
    ensures
        r matches Some(v) ==> v as int == big_val(*a),
        r is None ==> !(i64::MIN <= big_val(*a) <= i64::MAX),
{
    num_traits::ToPrimitive::to_i64(a)
}

/// Relies on `Display for BigInt`, for callers that show values.
#[verifier::external_body]
pub fn bn_to_decimal(a: &num_bigint::BigInt) -> String {
    format!("{}", a)
}

/// Relies on `rand::thread_rng` for a process-local generator.
#[verifier::external_body]
pub fn fresh_rng() -> rand::rngs::ThreadRng {
    rand::thread_rng()
}

/// Relies on `num_bigint::RandBigInt::gen_bigint`: a random signed integer
/// whose magnitude has at most the given bit size.
#[verifier::external_body]
pub fn gen_signed_bits(rng: &mut rand::rngs::ThreadRng, bits: u64) -> (r: num_bigint::BigInt)
    ensures
        -(pow2(bits as nat) as int) < big_val(r) < pow2(bits as nat) as int,
{
    num_bigint::RandBigInt::gen_bigint(rng, bits)
}

/// Relies on `num_bigint::RandBigInt::gen_bigint_range`: a random integer in
/// `[low, high)`, which panics on an empty range.
#[verifier::external_body]
pub fn gen_in_range(
    rng: &mut rand::rngs::ThreadRng,
    low: &num_bigint::BigInt,
    high: &num_bigint::BigInt,
) -> (r: num_bigint::BigInt)
    requires
        big_val(*low) < big_val(*high),
    ensures
        big_val(*low) <= big_val(r) < big_val(*high),
{
    num_bigint::RandBigInt::gen_bigint_range(rng, low, high)
}

} // verus!
