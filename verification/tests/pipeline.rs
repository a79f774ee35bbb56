use concrete_fft::c64;
use concrete_fft::ordered::{Method, Plan};
use dcrt_fhe::big_polynomial::{inner_product_big_poly, BigPolynomial};
use dcrt_fhe::context::DcrtContext;
use dcrt_fhe::dcrt::{
    inner_product, poly_from_congruences, residues_mod_primes, try_inner_product, Dcrt,
};
use dcrt_fhe::gadget::gadget_decompose;
use dyn_stack::{GlobalPodBuffer, PodStack, ReborrowMut};
use num_bigint::BigInt;
use num_traits::{Signed, ToPrimitive, Zero};
use std::time::Duration;

const PI: f64 = std::f64::consts::PI;

static PRIME_20: &[u32] = &[
    1048583, 1048589, 1048601, 1048609, 1048613, 1048627, 1048633, 1048661, 1048681, 1048703,
    1048709, 1048717, 1048721, 1048759, 1048783,
];

fn to_fft(poly: &mut [c64], plan: &Plan) {
    let mut scratch_memory = GlobalPodBuffer::new(plan.fft_scratch().unwrap());
    let mut stack = PodStack::new(&mut scratch_memory);
    plan.fwd(poly, stack.rb_mut());
}

fn from_fft(poly: &mut [c64], plan: &Plan) {
    let n = poly.len();
    let mut scratch_memory = GlobalPodBuffer::new(plan.fft_scratch().unwrap());
    let mut stack = PodStack::new(&mut scratch_memory);
    plan.inv(poly, stack.rb_mut());
    for coef in poly.iter_mut() {
        *coef /= n as f64;
    }
}

/// The floating-point half of the conversion into double-CRT form: the
/// verified library computes the exact per-prime residues; this applies the
/// negacyclic twiddle and the forward transform.
fn to_dcrt(a: &BigPolynomial, context: &DcrtContext, plan: &Plan, n: usize) -> Dcrt {
    assert_eq!(a.degree(), n);
    let residues = residues_mod_primes(a, context);
    let mut res = Dcrt::new(n, context.primes.len());
    for (i, row) in residues.iter().enumerate() {
        for j in 0..n {
            let theta = PI * j as f64 / n as f64;
            let twiddle = c64::new(theta.cos(), theta.sin());
            res.poly[i][j] = c64::new(row[j] as f64, 0.0) * twiddle;
        }
        to_fft(&mut res.poly[i], plan);
    }
    res
}

/// The floating-point half of the conversion out of double-CRT form: inverse
/// transform and twiddle removal, rounding to integer congruences; the
/// verified library then reconstructs and centers exactly.
fn from_dcrt(a: &mut Dcrt, context: &DcrtContext, plan: &Plan, n: usize) -> BigPolynomial {
    for poly_mod_p in a.poly.iter_mut() {
        from_fft(poly_mod_p, plan);
        for j in 0..n {
            let theta = PI * j as f64 / n as f64;
            let inv_twiddle = c64::new(theta.cos(), -theta.sin());
            poly_mod_p[j] *= inv_twiddle;
        }
    }
    let mut congruences = vec![vec![0i64; context.primes.len()]; n];
    for i in 0..context.primes.len() {
        for j in 0..n {
            congruences[j][i] = a.poly[i][j].re.round() as i64;
        }
    }
    poly_from_congruences(&congruences, context)
}

fn external_product(
    vector_ciphertext: &Vec<Dcrt>,
    scalar_ciphertext: &mut Dcrt,
    context: &DcrtContext,
    plan: &Plan,
    n: usize,
    l: usize,
    b: u64,
) -> Dcrt {
    let scalar_poly = from_dcrt(scalar_ciphertext, context, plan, n);
    let decomposed = gadget_decompose(&scalar_poly, n, l, b);
    let decomposed_dcrt: Vec<Dcrt> =
        decomposed.iter().map(|p| to_dcrt(p, context, plan, n)).collect();
    inner_product(vector_ciphertext, &decomposed_dcrt)
}

fn max_abs_error(a: &BigPolynomial, b: &BigPolynomial) -> BigInt {
    let diff = a.minus(b);
    diff.coeficients
        .iter()
        .map(|c| c.abs())
        .max()
        .unwrap_or_else(BigInt::zero)
}

fn context_256() -> DcrtContext {
    DcrtContext::new(&PRIME_20.to_vec(), 206, 10, 1 << 24, 256).unwrap()
}

#[test]
fn round_trip_recovers_small_polynomials() {
    // For every power-of-two dimension, a polynomial with coefficients far
    // below M/2 survives to_dcrt followed by from_dcrt within a small
    // integer tolerance.
    let tolerance = BigInt::from(10);
    let mut n = 2usize;
    while n <= 256 {
        let ctx = DcrtContext::new(&PRIME_20.to_vec(), 206, 10, 1 << 24, n as u64).unwrap();
        let plan = Plan::new(n, Method::Measure(Duration::from_millis(10)));
        let p = BigPolynomial::rand(n, 56, n as u32);
        let mut d = to_dcrt(&p, &ctx, &plan, n);
        let back = from_dcrt(&mut d, &ctx, &plan, n);
        let err = max_abs_error(&p, &back);
        assert!(
            err <= tolerance,
            "round trip at dimension {} drifted by {}",
            n,
            err
        );
        n *= 2;
    }
}

#[test]
fn addition_is_homomorphic() {
    let n = 256usize;
    let ctx = context_256();
    let plan = Plan::new(n, Method::Measure(Duration::from_millis(10)));
    let p = BigPolynomial::rand(n, 56, n as u32);
    let q = BigPolynomial::rand(n, 56, n as u32);
    let dp = to_dcrt(&p, &ctx, &plan, n);
    let dq = to_dcrt(&q, &ctx, &plan, n);
    let mut sum = dp.plus(&dq);
    let back = from_dcrt(&mut sum, &ctx, &plan, n);
    let exact = p.plus(&q).module(n);
    let err = max_abs_error(&exact, &back);
    assert!(err <= BigInt::from(10), "additive drift {}", err);
}

#[test]
fn multiplication_is_homomorphic() {
    let n = 256usize;
    let ctx = context_256();
    let plan = Plan::new(n, Method::Measure(Duration::from_millis(10)));
    let p = BigPolynomial::rand(n, 56, n as u32);
    let q = BigPolynomial::rand(n, 56, n as u32);
    let dp = to_dcrt(&p, &ctx, &plan, n);
    let dq = to_dcrt(&q, &ctx, &plan, n);
    let mut prod = dp.times(&dq);
    let back = from_dcrt(&mut prod, &ctx, &plan, n);
    let exact = p.times(&q);
    let err = max_abs_error(&exact, &back);
    assert!(err < BigInt::from(10), "multiplicative drift {}", err);
}

#[test]
fn tiny_ring_multiplication_matches_exact_product() {
    // Dimension 2, the nine small primes, two digits: transform, pointwise
    // multiply, transform back, and compare with the exact ring product.
    let primes: Vec<u32> = vec![3, 5, 7, 11, 13, 17, 23, 31, 37];
    let n = 2usize;
    let ctx = DcrtContext::new(&primes, 10, 2, 32, n as u64).unwrap();
    let plan = Plan::new(n, Method::Measure(Duration::from_millis(10)));
    for _ in 0..20 {
        let p = BigPolynomial::rand(n, 5, n as u32);
        let q = BigPolynomial::rand(n, 5, n as u32);
        let dp = to_dcrt(&p, &ctx, &plan, n);
        let dq = to_dcrt(&q, &ctx, &plan, n);
        let mut prod = dp.times(&dq);
        let back = from_dcrt(&mut prod, &ctx, &plan, n);
        let exact = p.times(&q);
        assert!(
            exact.eq_poly(&back),
            "dimension-two product drifted: exact {:?} got {:?}",
            exact.coeficients,
            back.coeficients
        );
    }
}

#[test]
fn external_product_matches_exact_ground_truth() {
    // The benchmark parameters: dimension 256, fifteen 20-bit primes, ten
    // digits in base 2^24, random 56-bit coefficients; the pipeline result
    // must match the exact Σ vector[i] · g⁻¹(scalar)[i] within one unit.
    let n = 256usize;
    let l = 10usize;
    let b: u64 = 1 << 24;
    let ctx = context_256();
    let plan = Plan::new(n, Method::Measure(Duration::from_millis(10)));

    let vector_messages: Vec<BigPolynomial> =
        (0..l).map(|_| BigPolynomial::rand(n, 56, n as u32)).collect();
    let scalar_message = BigPolynomial::rand(n, 56, n as u32);

    let decomposed_scalar = gadget_decompose(&scalar_message, n, l, b);
    let exact_result = inner_product_big_poly(&vector_messages, &decomposed_scalar);

    let vector_ciphertext: Vec<Dcrt> =
        vector_messages.iter().map(|p| to_dcrt(p, &ctx, &plan, n)).collect();
    let mut scalar_ciphertext = to_dcrt(&scalar_message, &ctx, &plan, n);

    let mut result_dcrt =
        external_product(&vector_ciphertext, &mut scalar_ciphertext, &ctx, &plan, n, l, b);
    let approx_result = from_dcrt(&mut result_dcrt, &ctx, &plan, n);

    let err = max_abs_error(&exact_result, &approx_result);
    assert!(err <= BigInt::from(1), "external product drift {}", err);
}

#[test]
fn inner_product_rejects_empty_and_mismatched_input() {
    // Empty input must fail, never return a silent zero.
    let empty: Vec<Dcrt> = Vec::new();
    assert!(try_inner_product(&empty, &Vec::new()).is_none());

    let a = vec![Dcrt::new(4, 3), Dcrt::new(4, 3)];
    let shorter = vec![Dcrt::new(4, 3)];
    assert!(try_inner_product(&a, &shorter).is_none());

    // A shape mismatch among the entries must fail too.
    let mismatched = vec![Dcrt::new(4, 3), Dcrt::new(8, 3)];
    assert!(try_inner_product(&a, &mismatched).is_none());
    let wrong_prime_count = vec![Dcrt::new(4, 3), Dcrt::new(4, 2)];
    assert!(try_inner_product(&a, &wrong_prime_count).is_none());

    // Well-shaped input succeeds.
    let b = vec![Dcrt::new(4, 3), Dcrt::new(4, 3)];
    let r = try_inner_product(&a, &b).unwrap();
    assert_eq!(r.n, 4);
    assert_eq!(r.poly.len(), 3);
}

#[test]
fn residues_and_reconstruction_are_exact_inverses() {
    // Without any transform in between, the two exact halves of the
    // conversion invert each other wherever coefficients lie in (-M/2, M/2].
    let primes: Vec<u32> = vec![3, 5, 7];
    let ctx = DcrtContext::new(&primes, 4, 1, 2, 1).unwrap();
    assert_eq!(ctx.primes, vec![3, 5, 7]);
    let p = BigPolynomial::from_i64_values(&vec![-52, 0, 1, 52, -17]);
    let residues = residues_mod_primes(&p, &ctx);
    assert_eq!(residues.len(), 3);
    assert_eq!(residues[0], vec![2, 0, 1, 1, 1]);
    let mut congruences = vec![vec![0i64; 3]; 5];
    for i in 0..3 {
        for j in 0..5 {
            congruences[j][i] = residues[i][j] as i64;
        }
    }
    let back = poly_from_congruences(&congruences, &ctx);
    assert!(p.eq_poly(&back));
}

#[test]
fn dcrt_add_assign_matches_plus() {
    let n = 8usize;
    let primes: Vec<u32> = vec![3, 5, 7];
    let ctx = DcrtContext::new(&primes, 4, 1, 2, 1).unwrap();
    let plan = Plan::new(n, Method::Measure(Duration::from_millis(10)));
    let p = BigPolynomial::rand(n, 3, n as u32);
    let q = BigPolynomial::rand(n, 3, n as u32);
    let dp = to_dcrt(&p, &ctx, &plan, n);
    let dq = to_dcrt(&q, &ctx, &plan, n);
    let plus = dp.plus(&dq);
    let mut assigned = dp.clone();
    assigned.add_assign_with(&dq);
    for i in 0..plus.poly.len() {
        for j in 0..n {
            assert_eq!(plus.poly[i][j], assigned.poly[i][j]);
        }
    }
    let times = dp.times(&dq);
    let mut massigned = dp.clone();
    massigned.mul_assign_with(&dq);
    for i in 0..times.poly.len() {
        for j in 0..n {
            assert_eq!(times.poly[i][j], massigned.poly[i][j]);
        }
    }
}
