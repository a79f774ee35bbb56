use dcrt_fhe::big_polynomial::{inner_product_big_poly, BigPolynomial};
use dcrt_fhe::context::{crt, DcrtContext, DcrtError};
use dcrt_fhe::gadget::{gadget_decompose, signed_digits};
use dcrt_fhe::util::{
    centered_rem_poly, round_bigint_division, round_poly_division, sample_poly_signed_bound,
    sample_poly_uniform_bound, sym_mod,
};
use num_bigint::{BigInt, Sign};
use num_traits::{One, Signed, ToPrimitive, Zero};

fn poly(vals: &[i64]) -> BigPolynomial {
    BigPolynomial::from_i64_values(&vals.to_vec())
}

fn coefs(p: &BigPolynomial) -> Vec<i64> {
    (0..p.degree()).map(|i| p.get_i64(i).unwrap()).collect()
}

#[test]
fn new_is_zero_filled() {
    let p = BigPolynomial::new(4);
    assert_eq!(p.degree(), 4);
    assert_eq!(coefs(&p), vec![0, 0, 0, 0]);
}

#[test]
fn module_folds_with_alternating_signs() {
    // 4 + 3x + 2x^2 + x^3 mod (x^2 + 1): x^2 == -1, x^3 == -x.
    let p = poly(&[4, 3, 2, 1]);
    let r = p.module(2);
    assert_eq!(coefs(&r), vec![2, 2]);
    // A second wrap flips the sign back: degree 4 and 5 add positively again.
    let q = poly(&[1, 1, 1, 1, 1, 1]).module(2);
    assert_eq!(coefs(&q), vec![1, 1]);
}

#[test]
fn add_and_sub_pad_with_zeros() {
    let a = poly(&[1, 2, 3]);
    let b = poly(&[10, 20]);
    assert_eq!(coefs(&a.plus(&b)), vec![11, 22, 3]);
    assert_eq!(coefs(&a.minus(&b)), vec![-9, -18, 3]);
    assert_eq!(coefs(&b.minus(&a)), vec![9, 18, -3]);
}

#[test]
fn mul_is_negacyclic() {
    // (1 + 2x)(3 + 4x) = 3 + 10x + 8x^2 == -5 + 10x (mod x^2 + 1).
    let a = poly(&[1, 2]);
    let b = poly(&[3, 4]);
    assert_eq!(coefs(&a.times(&b)), vec![-5, 10]);
    // Inputs are not mutated by their ring operators.
    assert_eq!(coefs(&a), vec![1, 2]);
    assert_eq!(coefs(&b), vec![3, 4]);
}

#[test]
fn scalar_div_truncates_and_rem_is_euclidean() {
    let a = poly(&[7, -7, 5, -5]);
    let d = BigInt::from(3);
    assert_eq!(coefs(&a.div_scalar(&d)), vec![2, -2, 1, -1]);
    // Euclidean remainder is always non-negative.
    assert_eq!(coefs(&a.rem_scalar(&d)), vec![1, 2, 2, 1]);
}

#[test]
fn sym_mod_shifts_large_residues() {
    assert_eq!(sym_mod(BigInt::from(7), 5), BigInt::from(2));
    assert_eq!(sym_mod(BigInt::from(8), 5), BigInt::from(-2));
    assert_eq!(sym_mod(BigInt::from(-7), 5), BigInt::from(-2));
}

#[test]
fn centered_rem_poly_centers_on_zero() {
    let p = poly(&[9, -9, 2, 12]);
    let r = centered_rem_poly(&p, &BigInt::from(5));
    assert_eq!(coefs(&r), vec![-1, 1, 2, 2]);
}

#[test]
fn round_division_rounds_half_away_from_zero() {
    let two = BigInt::from(2);
    let three = BigInt::from(3);
    assert_eq!(round_bigint_division(&BigInt::from(7), &two), BigInt::from(4));
    assert_eq!(round_bigint_division(&BigInt::from(-7), &two), BigInt::from(-4));
    assert_eq!(round_bigint_division(&BigInt::from(5), &three), BigInt::from(2));
    assert_eq!(round_bigint_division(&BigInt::from(4), &three), BigInt::from(1));
    assert_eq!(round_bigint_division(&BigInt::from(0), &three), BigInt::from(0));
    let p = poly(&[7, -7]);
    assert_eq!(coefs(&round_poly_division(&p, &two)), vec![4, -4]);
}

#[test]
fn signed_digits_reconstruct_negative_values() {
    let digits = signed_digits(&BigInt::from(-5), 3, 2);
    let vals: Vec<i64> = digits.iter().map(|d| d.to_i64().unwrap()).collect();
    assert_eq!(vals, vec![-2, -1]);
    assert_eq!(-2 + 3 * -1, -5);
}

#[test]
fn gadget_reconstruction_is_exact() {
    // Digits in base 2 over 10 positions reconstruct every coefficient
    // exactly: signed positional decomposition carries no rounding.
    let s = poly(&[7, -19, 300, 0, -511]);
    let l = 10usize;
    let b = 2u64;
    let out = gadget_decompose(&s, 5, l, b);
    assert_eq!(out.len(), l);
    for digit_poly in &out {
        assert_eq!(digit_poly.degree(), 5);
    }
    for j in 0..5 {
        let mut acc: i64 = 0;
        let mut weight: i64 = 1;
        for digit_poly in out.iter() {
            let d = digit_poly.get_i64(j).unwrap();
            assert!(d.abs() < b as i64);
            acc += d * weight;
            weight *= b as i64;
        }
        assert_eq!(acc, s.get_i64(j).unwrap());
    }
}

#[test]
fn gadget_reconstruction_base_sixteen() {
    let s = poly(&[123456, -98765, 42]);
    let out = gadget_decompose(&s, 3, 6, 16);
    for j in 0..3 {
        let mut acc: i64 = 0;
        let mut weight: i64 = 1;
        for digit_poly in out.iter() {
            acc += digit_poly.get_i64(j).unwrap() * weight;
            weight *= 16;
        }
        assert_eq!(acc, s.get_i64(j).unwrap());
    }
}

#[test]
fn gadget_accepts_the_whole_base_range() {
    // A base beyond the signed 64-bit range: 2^64 in base 2^63 is the digit
    // pair (0, 2).
    let big = poly(&[1i64 << 62]).scale(&BigInt::from(4));
    let out = gadget_decompose(&big, 1, 2, 1u64 << 63);
    assert_eq!(out[0].get_i64(0).unwrap(), 0);
    assert_eq!(out[1].get_i64(0).unwrap(), 2);
}

#[test]
fn context_selects_minimal_prefix() {
    let table: Vec<u32> = vec![3, 5, 7, 11];
    // Budget: 3 + ceil(log2 1) + ceil(log2 2) = 4 bits; 3 * 5 = 15 is the
    // first prefix with at least 4 bits.
    let ctx = DcrtContext::new(&table, 3, 1, 2, 1).unwrap();
    assert_eq!(ctx.primes, vec![3, 5]);
    assert_eq!(ctx.m, BigInt::from(15));
    assert_eq!(ctx.m_i, vec![BigInt::from(5), BigInt::from(3)]);
    // 5 * 2 == 10 == 1 (mod 3) and 3 * 2 == 6 == 1 (mod 5).
    assert_eq!(ctx.m_i_inv_mod_pi, vec![BigInt::from(2), BigInt::from(2)]);
}

#[test]
fn context_reports_required_bits_when_table_is_small() {
    let table: Vec<u32> = vec![3, 5];
    // Budget: 100 + ceil(log2 10) + ceil(log2 64) = 110 bits.
    match DcrtContext::new(&table, 100, 10, 16, 4) {
        Err(DcrtError::InsufficientPrimes(bits)) => assert_eq!(bits, 110),
        _ => panic!("a two-entry table cannot reach a 110-bit budget"),
    }
}

#[test]
fn context_construction_is_deterministic() {
    let table: Vec<u32> = vec![
        1048583, 1048589, 1048601, 1048609, 1048613, 1048627, 1048633, 1048661, 1048681, 1048703,
        1048709, 1048717, 1048721, 1048759, 1048783,
    ];
    let c1 = DcrtContext::new(&table, 206, 10, 1 << 24, 256).unwrap();
    let c2 = DcrtContext::new(&table, 206, 10, 1 << 24, 256).unwrap();
    assert_eq!(c1.primes, c2.primes);
    assert_eq!(c1.m, c2.m);
    assert_eq!(c1.m_i, c2.m_i);
    assert_eq!(c1.m_i_inv_mod_pi, c2.m_i_inv_mod_pi);
}

#[test]
fn crt_recovers_a_value_from_its_residues() {
    let table: Vec<u32> = vec![3, 5];
    let ctx = DcrtContext::new(&table, 3, 1, 2, 1).unwrap();
    // 7 == 1 (mod 3) and 7 == 2 (mod 5).
    let congruences = vec![BigInt::from(1), BigInt::from(2)];
    assert_eq!(crt(&congruences, &ctx), BigInt::from(7));
}

#[test]
fn inner_product_of_polynomials_matches_hand_sum() {
    let a = vec![poly(&[1, 2]), poly(&[3, 4])];
    let b = vec![poly(&[5, 6]), poly(&[7, 8])];
    // (1+2x)(5+6x) = -7 + 16x; (3+4x)(7+8x) = -11 + 52x; sum = -18 + 68x.
    let r = inner_product_big_poly(&a, &b);
    assert_eq!(coefs(&r), vec![-18, 68]);
    let empty: Vec<BigPolynomial> = Vec::new();
    assert_eq!(inner_product_big_poly(&empty, &Vec::new()).degree(), 0);
}

#[test]
fn sampling_respects_the_bounds() {
    let bound = BigInt::from(50);
    let u = sample_poly_uniform_bound(&bound, 200);
    assert_eq!(u.degree(), 200);
    for c in coefs(&u) {
        assert!(0 <= c && c < 50);
    }
    let s = sample_poly_signed_bound(&bound, 200);
    for c in coefs(&s) {
        assert!(-50 <= c && c < 50);
    }
}

#[test]
fn rand_reduces_into_the_requested_degree() {
    let p = BigPolynomial::rand(32, 10, 8);
    assert_eq!(p.degree(), 8);
    for c in coefs(&p) {
        // 32 coefficients of at most 10 bits fold into 8 slots.
        assert!(c.abs() <= 32 * 1023);
    }
}

#[test]
fn coefficient_text_is_decimal() {
    let p = poly(&[-52, 0, 1234567890123]);
    assert_eq!(p.coef_decimal(0), "-52");
    assert_eq!(p.coef_decimal(1), "0");
    assert_eq!(p.coef_decimal(2), "1234567890123");
}

#[test]
fn eq_poly_and_dup_agree() {
    let a = poly(&[5, -3, 0, 7]);
    let b = a.dup();
    assert!(a.eq_poly(&b));
    assert!(!a.eq_poly(&poly(&[5, -3, 0, 8])));
    assert!(!a.eq_poly(&poly(&[5, -3, 0])));
}

/// Converte um BigPolynomial para uma string no formato padrão do Sage (ordem decrescente)
fn to_sage_string(poly: &BigPolynomial) -> String {
    if poly.coeficients.iter().all(|c| c.is_zero()) {
        return "0".to_string();
    }

    let mut result = String::new();
    for (i, coef) in poly.coeficients.iter().enumerate().rev() {
        if coef.is_zero() {
            continue;
        }

        let abs_coef = coef.abs();
        let is_first_term = result.is_empty();

        if !is_first_term {
            if coef.sign() == Sign::Plus {
                result.push_str(" + ");
            } else {
                result.push_str(" - ");
            }
        } else {
            if coef.sign() == Sign::Minus {
                result.push('-');
            }
        }

        let term_str = match i {
            0 => format!("{}", abs_coef),
            1 => {
                if abs_coef.is_one() {
                    "x".to_string()
                } else {
                    format!("{}*x", abs_coef)
                }
            }
            _ => {
                if abs_coef.is_one() {
                    format!("x^{}", i)
                } else {
                    format!("{}*x^{}", abs_coef, i)
                }
            }
        };
        result.push_str(&term_str);
    }
    result
}

fn to_sage_string_for_parsing(poly: &BigPolynomial) -> String {
    if poly.coeficients.is_empty() || poly.coeficients.iter().all(|c| c.is_zero()) {
        return "0".to_string();
    }
    let mut parts = Vec::new();
    for (i, coef) in poly.coeficients.iter().enumerate() {
        if coef.is_zero() {
            continue;
        }
        let term_str = match i {
            0 => format!("({})", coef),
            1 => format!("({}) * x", coef),
            _ => format!("({}) * x^{}", coef, i),
        };
        parts.push(term_str);
    }
    parts.join(" + ")
}

#[test]
fn test_arithmetic_against_sage() {
    const TEST_DEGREE: usize = 8;
    let poly_a = BigPolynomial::rand(TEST_DEGREE, 32, TEST_DEGREE as u32);
    let poly_b = BigPolynomial::rand(TEST_DEGREE, 32, TEST_DEGREE as u32);

    let rust_sum = poly_a.plus(&poly_b);
    let rust_mul = poly_a.times(&poly_b);

    let sage_poly_a = to_sage_string_for_parsing(&poly_a);
    let sage_poly_b = to_sage_string_for_parsing(&poly_b);

    let sage_script = format!(
        r#"# --- Script Sage para Verificação ---
N = {}
P.<x> = PolynomialRing(ZZ)
R = P.quotient(x^N + 1, 'x')
poly_a = R("{}")
poly_b = R("{}")
sage_sum = poly_a + poly_b
sage_mul = poly_a * poly_b
print("[SAGE_SUM]")
print(sage_sum)
print("[SAGE_MUL]")
print(sage_mul)
"#,
        TEST_DEGREE, sage_poly_a, sage_poly_b,
    );

    println!("\n--- Resultados do Rust (para comparação) ---");
    println!("[RUST_SUM]");
    println!("{}", to_sage_string(&rust_sum));
    println!("[RUST_MUL]");
    println!("{}", to_sage_string(&rust_mul));
    println!("-----------------------------------------\n");

    println!("SAGE_SCRIPT_START");
    println!("{}", sage_script);
    println!("SAGE_SCRIPT_END");

    assert!(true);
}
