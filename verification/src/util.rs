//! Numeric utilities of the core's surface: symmetric and centered
//! remainders, division rounded to the nearest integer, and bounded uniform
//! polynomial sampling.

use vstd::prelude::*;

verus! {

use crate::arith::lemma_trunc_div_mod;
use crate::bignum::{
    big_val,
    bn_from_i64,
    bn_plus,
    bn_minus,
    bn_div_trunc,
    bn_rem_trunc,
    bn_rem_euclid,
    bn_lt,
    fresh_rng,
    gen_in_range,
};
use crate::big_polynomial::BigPolynomial;
use crate::arith::abs1;
use crate::poly_spec::{
    centered,
    seq_centered,
    round_div,
    seq_round_div,
    sym_mod_val,
    lemma_centered_props,
    lemma_round_div_nearest,
};

/// Truncated remainder modulo `n`, shifted down by `n` when twice the
/// remainder exceeds `n`.
pub fn sym_mod(a: num_bigint::BigInt, n: i64) -> (r: num_bigint::BigInt)
    requires
        n != 0,
    ensures
        big_val(r) == sym_mod_val(big_val(a), n as int),
{
    let n_big = bn_from_i64(n);
    let valor = bn_rem_trunc(&a, &n_big);
    let doubled = bn_plus(&valor, &valor);
    if bn_lt(&n_big, &doubled) {
        bn_minus(&valor, &n_big)
    } else {
        valor
    }
}

/// The representative of `c` in the range centered on zero modulo `m`: shift
/// by half the modulus, take the Euclidean remainder, shift back. The result
/// is congruent to `c`, lies in the centered range, and equals `c` whenever
/// `c` already lies there.
pub fn centered_rem(c: &num_bigint::BigInt, m: &num_bigint::BigInt) -> (r: num_bigint::BigInt)
    requires
        big_val(*m) > 0,
    ensures
        big_val(r) == centered(big_val(*c), big_val(*m)),
        0 <= big_val(r) + big_val(*m) / 2 < big_val(*m),
        big_val(r) % big_val(*m) == big_val(*c) % big_val(*m),
        -(big_val(*m) / 2) <= big_val(*c) && big_val(*c) + big_val(*m) / 2 < big_val(*m)
            ==> big_val(r) == big_val(*c),
{
    proof {
        lemma_centered_props(big_val(*c), big_val(*m));
    }
    let two = bn_from_i64(2);
    let m_half = bn_div_trunc(m, &two);
    proof {
        lemma_trunc_div_mod(big_val(*m), 2);
    }
    let shifted = bn_plus(c, &m_half);
    let remainder = bn_rem_euclid(&shifted, m);
    bn_minus(&remainder, &m_half)
}

/// Every coefficient centered modulo `modulus`; a polynomial whose
/// coefficients already lie in the centered range comes back unchanged.
pub fn centered_rem_poly(poly: &BigPolynomial, modulus: &num_bigint::BigInt) -> (r: BigPolynomial)
    requires
        big_val(*modulus) > 0,
    ensures
        r@ == seq_centered(poly@, big_val(*modulus)),
        forall|i: int|
            0 <= i < poly@.len() && -(big_val(*modulus) / 2) <= poly@[i] && poly@[i] + big_val(
                *modulus,
            ) / 2 < big_val(*modulus) ==> r@[i] == poly@[i],
{
    proof {
        assert forall|i: int|
            0 <= i < poly@.len() && -(big_val(*modulus) / 2) <= poly@[i] && poly@[i] + big_val(
                *modulus,
            ) / 2 < big_val(*modulus) implies centered(poly@[i], big_val(*modulus)) == poly@[i] by {
            lemma_centered_props(poly@[i], big_val(*modulus));
        }
    }
    let mut coeficients: Vec<num_bigint::BigInt> = Vec::new();
    let mut i: usize = 0;
    while i < poly.coeficients.len()
        invariant
            big_val(*modulus) > 0,
            i <= poly@.len(),
            coeficients@.len() == i,
            forall|t: int|
                0 <= t < i ==> big_val(coeficients@[t]) == centered(poly@[t], big_val(*modulus)),
        decreases poly@.len() - i,
    {
        coeficients.push(centered_rem(&poly.coeficients[i], modulus));
        i = i + 1;
    }
    let r = BigPolynomial { coeficients };
    proof {
        assert(r@ =~= seq_centered(poly@, big_val(*modulus)));
    }
    r
}

/// Division rounded to the nearest integer, halves away from zero: half the
/// denominator is shifted toward the dividend's sign before truncating. The
/// remainder the result leaves is at most half the denominator in magnitude.
pub fn round_bigint_division(num: &num_bigint::BigInt, den: &num_bigint::BigInt) -> (r:
    num_bigint::BigInt)
    requires
        big_val(*den) > 0,
    ensures
        big_val(r) == round_div(big_val(*num), big_val(*den)),
        2 * abs1(big_val(*num) - big_val(r) * big_val(*den)) <= big_val(*den),
{
    proof {
        lemma_round_div_nearest(big_val(*num), big_val(*den));
    }
    let two = bn_from_i64(2);
    let half_den = bn_div_trunc(den, &two);
    proof {
        lemma_trunc_div_mod(big_val(*den), 2);
    }
    let zero = bn_from_i64(0);
    if bn_lt(&zero, num) {
        bn_div_trunc(&bn_plus(num, &half_den), den)
    } else {
        bn_div_trunc(&bn_minus(num, &half_den), den)
    }
}

/// Every coefficient divided by `den`, rounded to the nearest integer.
pub fn round_poly_division(poly: &BigPolynomial, den: &num_bigint::BigInt) -> (r: BigPolynomial)
    requires
        big_val(*den) > 0,
    ensures
        r@ == seq_round_div(poly@, big_val(*den)),
{
    let mut coeficients: Vec<num_bigint::BigInt> = Vec::new();
    let mut i: usize = 0;
    while i < poly.coeficients.len()
        invariant
            big_val(*den) > 0,
            i <= poly@.len(),
            coeficients@.len() == i,
            forall|t: int|
                0 <= t < i ==> big_val(coeficients@[t]) == round_div(poly@[t], big_val(*den)),
        decreases poly@.len() - i,
    {
        coeficients.push(round_bigint_division(&poly.coeficients[i], den));
        i = i + 1;
    }
    let r = BigPolynomial { coeficients };
    proof {
        assert(r@ =~= seq_round_div(poly@, big_val(*den)));
    }
    r
}

/// A polynomial of `degree` coefficients sampled uniformly from
/// `[0, bound)`.
pub fn sample_poly_uniform_bound(bound: &num_bigint::BigInt, degree: usize) -> (r: BigPolynomial)
    requires
        big_val(*bound) > 0,
    ensures
        r@.len() == degree,
        forall|i: int| 0 <= i < degree ==> 0 <= #[trigger] r@[i] < big_val(*bound),
{
    let mut rng = fresh_rng();
    let zero = bn_from_i64(0);
    let mut coeficients: Vec<num_bigint::BigInt> = Vec::new();
    while coeficients.len() < degree
        invariant
            big_val(*bound) > 0,
            big_val(zero) == 0,
            coeficients@.len() <= degree,
            forall|t: int|
                0 <= t < coeficients@.len() ==> 0 <= #[trigger] big_val(coeficients@[t]) < big_val(
                    *bound,
                ),
        decreases degree - coeficients.len(),
    {
        coeficients.push(gen_in_range(&mut rng, &zero, bound));
    }
    BigPolynomial { coeficients }
}

/// A polynomial of `degree` coefficients sampled uniformly from
/// `[-bound, bound)`.
pub fn sample_poly_signed_bound(bound: &num_bigint::BigInt, degree: usize) -> (r: BigPolynomial)
    requires
        big_val(*bound) > 0,
    ensures
        r@.len() == degree,
        forall|i: int| 0 <= i < degree ==> -big_val(*bound) <= #[trigger] r@[i] < big_val(*bound),
{
    let mut rng = fresh_rng();
    let zero = bn_from_i64(0);
    let neg_bound = bn_minus(&zero, bound);
    let mut coeficients: Vec<num_bigint::BigInt> = Vec::new();
    while coeficients.len() < degree
        invariant
            big_val(*bound) > 0,
            big_val(neg_bound) == -big_val(*bound),
            coeficients@.len() <= degree,
            forall|t: int|
                0 <= t < coeficients@.len() ==> -big_val(*bound) <= #[trigger] big_val(
                    coeficients@[t],
                ) < big_val(*bound),
        decreases degree - coeficients.len(),
    {
        coeficients.push(gen_in_range(&mut rng, &neg_bound, bound));
    }
    BigPolynomial { coeficients }
}

} // verus!
