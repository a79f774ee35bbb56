//! Scalar encryption and decryption of the GAHE scheme: consumers of the
//! core's exact ring operations, rounding and centering helpers.

use vstd::prelude::*;

verus! {

use vstd::arithmetic::power2::pow2;
use crate::arith::trunc_div;
use crate::bignum::{big_val, bn_from_i64, bn_shl, bn_div_trunc};
use crate::big_polynomial::BigPolynomial;
use crate::poly_spec::{
    seq_add,
    seq_scale,
    seq_negmul,
    seq_rem_euclid,
    seq_centered,
    seq_round_div,
    round_div,
};
use crate::util::{
    sample_poly_uniform_bound,
    sample_poly_signed_bound,
    centered_rem_poly,
    round_bigint_division,
    round_poly_division,
};

/// Public parameters of the scheme.
pub struct GaheContext {
    /// Modulus of the message space.
    pub t: num_bigint::BigInt,
    /// Ring dimension.
    pub n: usize,
    /// Bit length of the mask budget for `q`.
    pub gamma: u64,
    /// Bit length of the noise `r`.
    pub rho: u64,
}

/// Secret key of the scheme.
pub struct GaheSecretKey {
    /// The secret prime p.
    pub p: num_bigint::BigInt,
    /// The secret polynomial k.
    pub k: BigPolynomial,
    /// The inverse of k modulo p.
    pub k_inv: BigPolynomial,
    /// The private modulus x0.
    pub x0: num_bigint::BigInt,
}

/// What one encryption computes from the sampled mask `q` and noise `rr`:
/// `c = [x + m · (α · k)]_x0` with `x = [p·q + rr + k]_x0` and
/// `α = round(p / t)`.
pub open spec fn encrypt_formula(
    p: int,
    k: Seq<int>,
    x0: int,
    t: int,
    m: Seq<int>,
    q: Seq<int>,
    rr: Seq<int>,
) -> Seq<int> {
    let x = seq_rem_euclid(seq_add(seq_add(seq_scale(p, q), rr), k), x0);
    let msg_term = seq_rem_euclid(seq_negmul(m, seq_scale(round_div(p, t), k)), x0);
    seq_rem_euclid(seq_add(x, msg_term), x0)
}

/// What decryption computes from a ciphertext:
/// `m = [round(t · [c · k⁻¹ mod x0]_p / p)] mod t`, where `[·]_p` is the
/// centered remainder.
pub open spec fn decrypt_formula(k_inv: Seq<int>, x0: int, p: int, t: int, c: Seq<int>) -> Seq<
    int,
> {
    let c_prime = seq_rem_euclid(seq_negmul(c, k_inv), x0);
    let c_prime_mod_p = seq_centered(c_prime, p);
    let scaled = seq_round_div(seq_scale(t, c_prime_mod_p), p);
    seq_rem_euclid(scaled, t)
}

/// Encrypts a message polynomial: samples a mask `q` uniform in
/// `[0, 2^gamma / p)` and noise `rr` in `[-2^rho, 2^rho)`, and returns
/// `[(p·q + rr + k) mod x0 + (m · round(p/t) · k) mod x0] mod x0`.
pub fn encrypt_scalar(sk: &GaheSecretKey, context: &GaheContext, message: &BigPolynomial) -> (r:
    BigPolynomial)
    requires
        big_val(sk.p) >= 1,
        big_val(sk.p) <= pow2(context.gamma as nat),
        big_val(sk.x0) > 0,
        big_val(context.t) > 0,
        message@.len() <= usize::MAX / 2,
        sk.k@.len() <= usize::MAX / 2,
    ensures
        exists|q: Seq<int>, rr: Seq<int>|
            {
                &&& q.len() == context.n
                &&& rr.len() == context.n
                &&& (forall|i: int|
                    0 <= i < q.len() ==> 0 <= #[trigger] q[i] < trunc_div(
                        pow2(context.gamma as nat) as int,
                        big_val(sk.p),
                    ))
                &&& (forall|i: int|
                    0 <= i < rr.len() ==> -(pow2(context.rho as nat) as int) <= #[trigger] rr[i]
                        < pow2(context.rho as nat) as int)
                &&& r@ == encrypt_formula(
                    big_val(sk.p),
                    sk.k@,
                    big_val(sk.x0),
                    big_val(context.t),
                    message@,
                    q,
                    rr,
                )
            },
{
    let one = bn_from_i64(1);
    // q is drawn from [0, 2^gamma / p), r from [-2^rho, 2^rho).
    let q_bound = bn_div_trunc(&bn_shl(&one, context.gamma), &sk.p);
    let r_bound = bn_shl(&one, context.rho);
    proof {
        vstd::arithmetic::power2::lemma_pow2_pos(context.gamma as nat);
        vstd::arithmetic::power2::lemma_pow2_pos(context.rho as nat);
        crate::arith::lemma_trunc_div_mod(pow2(context.gamma as nat) as int, big_val(sk.p));
        let g = pow2(context.gamma as nat) as int;
        let p = big_val(sk.p);
        vstd::arithmetic::div_mod::lemma_fundamental_div_mod(g, p);
        vstd::arithmetic::div_mod::lemma_mod_bound(g, p);
        assert(g / p >= 1) by (nonlinear_arith)
            requires
                g == p * (g / p) + g % p,
                0 <= g % p < p,
                p <= g,
                p >= 1,
        ;
    }
    let q = sample_poly_uniform_bound(&q_bound, context.n);
    let rr = sample_poly_signed_bound(&r_bound, context.n);

    // x = (p·q + rr + k) mod x0.
    let p_q = q.scale(&sk.p);
    let p_q_plus_r = p_q.plus(&rr);
    let x = p_q_plus_r.plus(&sk.k).rem_scalar(&sk.x0);

    // The scaling factor α = round(p / t).
    let alpha = round_bigint_division(&sk.p, &context.t);

    // The message term m · (α · k), reduced modulo x0.
    let alpha_k = sk.k.scale(&alpha);
    let msg_term = message.times(&alpha_k).rem_scalar(&sk.x0);

    // c = (x + msg_term) mod x0.
    let ciphertext = x.plus(&msg_term).rem_scalar(&sk.x0);
    proof {
        let qv = q@;
        let rv = rr@;
        assert(ciphertext@ == encrypt_formula(
            big_val(sk.p),
            sk.k@,
            big_val(sk.x0),
            big_val(context.t),
            message@,
            qv,
            rv,
        ));
    }
    ciphertext
}

/// Decrypts a ciphertext: `c' = c · k⁻¹ mod x0`, centered modulo p, scaled by
/// t, divided by p with rounding, and reduced modulo t.
pub fn decrypt_scalar(sk: &GaheSecretKey, context: &GaheContext, ciphertext: &BigPolynomial) -> (r:
    BigPolynomial)
    requires
        big_val(sk.p) > 0,
        big_val(sk.x0) > 0,
        big_val(context.t) > 0,
        ciphertext@.len() <= usize::MAX / 2,
        sk.k_inv@.len() <= usize::MAX / 2,
    ensures
        r@ == decrypt_formula(
            sk.k_inv@,
            big_val(sk.x0),
            big_val(sk.p),
            big_val(context.t),
            ciphertext@,
        ),
{
    // c' = c · k⁻¹ (mod x0).
    let c_prime = ciphertext.times(&sk.k_inv).rem_scalar(&sk.x0);

    // c' modulo p with the remainder centered on zero.
    let c_prime_mod_p = centered_rem_poly(&c_prime, &sk.p);

    // round((t · [c']_p) / p).
    let scaled_poly = round_poly_division(&c_prime_mod_p.scale(&context.t), &sk.p);

    // The message is the result modulo t.
    scaled_poly.rem_scalar(&context.t)
}

} // verus!
