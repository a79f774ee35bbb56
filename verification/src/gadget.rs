//! Signed base-b gadget decomposition: the `g⁻¹` operation that splits a ring
//! element into bounded-coefficient digit polynomials, bounding noise growth
//! in homomorphic combination.

use vstd::prelude::*;

verus! {

use vstd::arithmetic::power::pow;
use crate::arith::{abs1, trunc_div, trunc_rem, lemma_trunc_div_mod};
use crate::bignum::{big_val, vals, bn_u64, bn_div_trunc, bn_rem_trunc};
use crate::big_polynomial::BigPolynomial;
use crate::poly_spec::{digits_val, lemma_digits_val_push};

/// Digit `j` of every polynomial in `polys`, as one sequence: the base-b
/// digits of the coefficient of `x^j`, least significant first.
pub open spec fn column(polys: Seq<BigPolynomial>, j: int) -> Seq<int> {
    Seq::new(polys.len(), |i: int| polys[i]@[j])
}

/// The signed base-b digits of one value, least significant first, by
/// repeated division truncated toward zero. Every digit lies strictly within
/// (-b, b), and wherever the value fits in `l` such digits the digits
/// reconstruct it exactly.
pub fn signed_digits(c: &num_bigint::BigInt, b: u64, l: usize) -> (r: Vec<num_bigint::BigInt>)
    requires
        b >= 2,
    ensures
        r@.len() == l,
        forall|i: int| 0 <= i < l ==> abs1(big_val(r@[i])) < b,
        abs1(big_val(*c)) < pow(b as int, l as nat) ==> digits_val(vals(r@), b as int) == big_val(
            *c,
        ),
{
    let base = bn_u64(b);
    let mut digits: Vec<num_bigint::BigInt> = Vec::new();
    let mut copy = c.clone();
    let mut i: usize = 0;
    proof {
        vstd::arithmetic::power::lemma_pow0(b as int);
        assert(vals(digits@) =~= Seq::<int>::empty());
        assert(digits_val(vals(digits@), b as int) == 0);
    }
    while i < l
        invariant
            b >= 2,
            big_val(base) == b,
            i <= l,
            digits@.len() == i,
            forall|t: int| 0 <= t < i ==> abs1(big_val(digits@[t])) < b,
            big_val(*c) == digits_val(vals(digits@), b as int) + big_val(copy) * pow(
                b as int,
                i as nat,
            ),
            abs1(big_val(copy)) * pow(b as int, i as nat) <= abs1(big_val(*c)),
        decreases l - i,
    {
        let ghost copy_v = big_val(copy);
        let ghost old_vals = vals(digits@);
        let d = bn_rem_trunc(&copy, &base);
        let q = bn_div_trunc(&copy, &base);
        proof {
            lemma_trunc_div_mod(copy_v, b as int);
            lemma_digits_val_push(old_vals, b as int, big_val(d));
            vstd::arithmetic::power::lemma_pow1(b as int);
            vstd::arithmetic::power::lemma_pow_adds(b as int, 1, i as nat);
            vstd::arithmetic::power::lemma_pow_positive(b as int, i as nat);
            // copy == b * q + d, so the digit lands at weight b^i and the
            // quotient carries on at weight b^(i + 1).
            assert((b * big_val(q) + big_val(d)) * pow(b as int, i as nat) == big_val(d) * pow(
                b as int,
                i as nat,
            ) + big_val(q) * ((b as int) * pow(b as int, i as nat))) by (nonlinear_arith);
            // The quotient's magnitude keeps the weighted bound.
            vstd::arithmetic::div_mod::lemma_div_pos_is_pos(abs1(copy_v), b as int);
            assert(abs1(big_val(q)) == abs1(copy_v) / (b as int));
            assert(abs1(big_val(q)) * (b as int) <= abs1(copy_v)) by {
                vstd::arithmetic::div_mod::lemma_fundamental_div_mod(abs1(copy_v), b as int);
                vstd::arithmetic::div_mod::lemma_mod_bound(abs1(copy_v), b as int);
            }
            assert(abs1(big_val(q)) * ((b as int) * pow(b as int, i as nat)) <= abs1(copy_v) * pow(
                b as int,
                i as nat,
            )) by (nonlinear_arith)
                requires
                    abs1(big_val(q)) * (b as int) <= abs1(copy_v),
                    pow(b as int, i as nat) > 0,
            ;
        }
        digits.push(d);
        copy = q;
        proof {
            assert(vals(digits@) =~= old_vals.push(big_val(d)));
        }
        i = i + 1;
    }
    proof {
        if abs1(big_val(*c)) < pow(b as int, l as nat) {
            vstd::arithmetic::power::lemma_pow_positive(b as int, l as nat);
            assert(abs1(big_val(copy)) < 1) by (nonlinear_arith)
                requires
                    abs1(big_val(copy)) * pow(b as int, l as nat) <= abs1(big_val(*c)),
                    abs1(big_val(*c)) < pow(b as int, l as nat),
                    pow(b as int, l as nat) > 0,
                    abs1(big_val(copy)) >= 0,
            ;
            assert(big_val(copy) == 0);
            assert(0 * pow(b as int, l as nat) == 0);
        }
    }
    digits
}

/// Decomposes a scalar polynomial into `l` digit polynomials in base `b`:
/// output polynomial `i` holds digit `i` of every one of the first `n`
/// coefficients. Summing `output[i] * b^i` over `i` reproduces each
/// coefficient exactly wherever it fits in `l` signed base-b digits — the
/// signed positional decomposition carries no rounding.
pub fn gadget_decompose(scalar_poly: &BigPolynomial, n: usize, l: usize, b: u64) -> (r: Vec<
    BigPolynomial,
>)
    requires
        b >= 2,
        scalar_poly@.len() >= n,
    ensures
        r@.len() == l,
        forall|i: int| 0 <= i < l ==> r@[i]@.len() == n,
        forall|i: int, j: int| 0 <= i < l && 0 <= j < n ==> abs1(r@[i]@[j]) < b,
        forall|j: int|
            0 <= j < n && abs1(scalar_poly@[j]) < pow(b as int, l as nat) ==> digits_val(
                column(r@, j),
                b as int,
            ) == scalar_poly@[j],
{
    let mut decomposed: Vec<Vec<num_bigint::BigInt>> = Vec::new();
    let mut j: usize = 0;
    while j < n
        invariant
            b >= 2,
            scalar_poly@.len() >= n,
            j <= n,
            decomposed@.len() == j,
            forall|t: int| 0 <= t < j ==> decomposed@[t]@.len() == l,
            forall|t: int, i: int|
                0 <= t < j && 0 <= i < l ==> abs1(big_val(decomposed@[t]@[i])) < b,
            forall|t: int|
                0 <= t < j && abs1(scalar_poly@[t]) < pow(b as int, l as nat) ==> digits_val(
                    vals(decomposed@[t]@),
                    b as int,
                ) == scalar_poly@[t],
        decreases n - j,
    {
        let digits = signed_digits(&scalar_poly.coeficients[j], b, l);
        decomposed.push(digits);
        j = j + 1;
    }
    let mut out: Vec<BigPolynomial> = Vec::new();
    let mut i: usize = 0;
    while i < l
        invariant
            n <= scalar_poly@.len(),
            i <= l,
            out@.len() == i,
            decomposed@.len() == n,
            forall|t: int| 0 <= t < n ==> decomposed@[t]@.len() == l,
            forall|t: int| 0 <= t < i ==> out@[t]@.len() == n,
            forall|t: int, j2: int|
                0 <= t < i && 0 <= j2 < n ==> out@[t]@[j2] == big_val(decomposed@[j2]@[t]),
        decreases l - i,
    {
        let mut coeficients: Vec<num_bigint::BigInt> = Vec::new();
        let mut j2: usize = 0;
        while j2 < n
            invariant
                i < l,
                j2 <= n,
                decomposed@.len() == n,
                forall|t: int| 0 <= t < n ==> decomposed@[t]@.len() == l,
                coeficients@.len() == j2,
                forall|t: int|
                    0 <= t < j2 ==> big_val(coeficients@[t]) == big_val(decomposed@[t]@[i as int]),
            decreases n - j2,
        {
            coeficients.push(decomposed[j2][i].clone());
            j2 = j2 + 1;
        }
        out.push(BigPolynomial { coeficients });
        i = i + 1;
    }
    proof {
        assert forall|j3: int|
            0 <= j3 < n && abs1(scalar_poly@[j3]) < pow(b as int, l as nat) implies digits_val(
            column(out@, j3),
            b as int,
        ) == scalar_poly@[j3] by {
            assert(column(out@, j3) =~= vals(decomposed@[j3]@));
        }
    }
    out
}

} // verus!
