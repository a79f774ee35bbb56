use dcrt_fhe::big_polynomial::BigPolynomial;
use dcrt_fhe::gahe::{decrypt_scalar, encrypt_scalar, GaheContext, GaheSecretKey};
use num_bigint::BigInt;

fn one_poly() -> BigPolynomial {
    BigPolynomial { coeficients: vec![BigInt::from(1)] }
}

#[test]
fn encrypt_then_decrypt_recovers_small_messages() {
    // A deliberately transparent key (k = k⁻¹ = 1) over a small prime: the
    // rounding pipeline must strip the mask and the noise for every message
    // in the space.
    let context = GaheContext { t: BigInt::from(4), n: 1, gamma: 20, rho: 1 };
    let sk = GaheSecretKey {
        p: BigInt::from(101),
        k: one_poly(),
        k_inv: one_poly(),
        x0: BigInt::from(1) << 63,
    };
    for m in 0..4i64 {
        let message = BigPolynomial::from_i64_values(&vec![m]);
        let ciphertext = encrypt_scalar(&sk, &context, &message);
        let decrypted = decrypt_scalar(&sk, &context, &ciphertext);
        assert_eq!(decrypted.get_i64(0).unwrap(), m, "message {} did not survive", m);
    }
}

#[test]
fn encrypt_then_decrypt_recovers_a_two_coefficient_message() {
    let context = GaheContext { t: BigInt::from(4), n: 2, gamma: 20, rho: 1 };
    let sk = GaheSecretKey {
        p: BigInt::from(101),
        k: one_poly(),
        k_inv: one_poly(),
        x0: BigInt::from(1) << 63,
    };
    let message = BigPolynomial::from_i64_values(&vec![1, 2]);
    let ciphertext = encrypt_scalar(&sk, &context, &message);
    assert_eq!(ciphertext.degree(), 2);
    let decrypted = decrypt_scalar(&sk, &context, &ciphertext);
    assert_eq!(decrypted.get_i64(0).unwrap(), 1);
    assert_eq!(decrypted.get_i64(1).unwrap(), 2);
}
