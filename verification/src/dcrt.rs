//! The double-CRT representation: one transform-domain vector per selected
//! prime. The transform values are floating-point complex numbers and
//! inherently approximate, so they are carried opaquely: the library proves
//! the shape discipline of every combination and the exact integer halves of
//! both conversions (residue computation on the way in, CRT reconstruction
//! and centering on the way out).

use vstd::prelude::*;

verus! {

use crate::arith::{trunc_rem, lemma_trunc_div_mod};
use crate::bignum::{big_val, vals, bn_from_i64, bn_rem_euclid, bn_to_i64};
use crate::big_polynomial::BigPolynomial;
use crate::context::{
    DcrtContext,
    crt,
    crt_sum,
    prod_except,
    lemma_prod_except,
    lemma_prod_except_divisible,
    lemma_crt_sum_nonneg,
    lemma_crt_sum_mod_vanish,
    lemma_primes_divide_product,
};
use crate::poly_spec::{centered, lemma_centered_props};
use crate::util::centered_rem;

#[verifier::external_type_specification]
#[verifier::external_body]
#[verifier::reject_recursive_types(T)]
pub struct ExComplex<T>(num_complex::Complex<T>);

/// Relies on `Zero::zero` for `Complex64`: the transform domain's zero.
/// Nothing further is stated of floating-point values.
#[verifier::external_body]
pub fn cx_zero() -> num_complex::Complex64 {
    <num_complex::Complex64 as num_traits::Zero>::zero()
}

/// Relies on `Add for Complex64`: componentwise complex addition.
#[verifier::external_body]
pub fn cx_add(a: &num_complex::Complex64, b: &num_complex::Complex64) -> num_complex::Complex64 {
    *a + *b
}

/// Relies on `Mul for Complex64`: complex multiplication.
#[verifier::external_body]
pub fn cx_mul(a: &num_complex::Complex64, b: &num_complex::Complex64) -> num_complex::Complex64 {
    *a * *b
}

/// A polynomial in double-CRT form: `poly[i]` is the forward transform of
/// the polynomial's residue modulo the i-th prime of the owning context.
#[derive(Clone, Debug)]
pub struct Dcrt {
    /// Per-prime transform vectors.
    pub poly: Vec<Vec<num_complex::Complex64>>,
    /// The ring dimension N.
    pub n: usize,
}

impl Dcrt {
    /// Every per-prime vector has the declared dimension.
    pub open spec fn wf(&self) -> bool {
        forall|i: int| 0 <= i < self.poly@.len() ==> self.poly@[i]@.len() == self.n
    }

    /// Same prime count and same dimension: the precondition of every
    /// componentwise combination.
    pub open spec fn same_shape(&self, other: &Dcrt) -> bool {
        self.n == other.n && self.poly@.len() == other.poly@.len()
    }

    /// A zero-filled double-CRT value of the given dimension and prime
    /// count.
    pub fn new(n: usize, prime_count: usize) -> (r: Dcrt)
        ensures
            r.wf(),
            r.n == n,
            r.poly@.len() == prime_count,
    {
        let mut poly: Vec<Vec<num_complex::Complex64>> = Vec::new();
        while poly.len() < prime_count
            invariant
                poly@.len() <= prime_count,
                forall|i: int| 0 <= i < poly@.len() ==> poly@[i]@.len() == n,
            decreases prime_count - poly.len(),
        {
            let mut row: Vec<num_complex::Complex64> = Vec::new();
            while row.len() < n
                invariant
                    row@.len() <= n,
                decreases n - row.len(),
            {
                row.push(cx_zero());
            }
            poly.push(row);
        }
        Dcrt { poly, n }
    }

    /// Whether the per-prime vectors all have the declared dimension.
    pub fn check_wf(&self) -> (r: bool)
        ensures
            r == self.wf(),
    {
        let mut i: usize = 0;
        while i < self.poly.len()
            invariant
                i <= self.poly@.len(),
                forall|t: int| 0 <= t < i ==> self.poly@[t]@.len() == self.n,
            decreases self.poly@.len() - i,
        {
            if self.poly[i].len() != self.n {
                return false;
            }
            i = i + 1;
        }
        true
    }

    /// Componentwise complex addition: valid because the forward transform
    /// is linear. Mismatched shapes are a caller error, excluded here.
    pub fn plus(&self, rhs: &Dcrt) -> (r: Dcrt)
        requires
            self.wf(),
            rhs.wf(),
            self.same_shape(rhs),
        ensures
            r.wf(),
            r.same_shape(self),
    {
        let mut poly: Vec<Vec<num_complex::Complex64>> = Vec::new();
        let mut i: usize = 0;
        while i < self.poly.len()
            invariant
                self.wf(),
                rhs.wf(),
                self.same_shape(rhs),
                i <= self.poly@.len(),
                poly@.len() == i,
                forall|t: int| 0 <= t < i ==> poly@[t]@.len() == self.n,
            decreases self.poly@.len() - i,
        {
            let mut row: Vec<num_complex::Complex64> = Vec::new();
            let mut j: usize = 0;
            while j < self.n
                invariant
                    self.wf(),
                    rhs.wf(),
                    self.same_shape(rhs),
                    i < self.poly@.len(),
                    j <= self.n,
                    row@.len() == j,
                decreases self.n - j,
            {
                row.push(cx_add(&self.poly[i][j], &rhs.poly[i][j]));
                j = j + 1;
            }
            poly.push(row);
            i = i + 1;
        }
        Dcrt { poly, n: self.n }
    }

    /// Componentwise complex multiplication: the ring product in the
    /// evaluation domain. Mismatched shapes are a caller error, excluded
    /// here.
    pub fn times(&self, rhs: &Dcrt) -> (r: Dcrt)
        requires
            self.wf(),
            rhs.wf(),
            self.same_shape(rhs),
        ensures
            r.wf(),
            r.same_shape(self),
    {
        let mut poly: Vec<Vec<num_complex::Complex64>> = Vec::new();
        let mut i: usize = 0;
        while i < self.poly.len()
            invariant
                self.wf(),
                rhs.wf(),
                self.same_shape(rhs),
                i <= self.poly@.len(),
                poly@.len() == i,
                forall|t: int| 0 <= t < i ==> poly@[t]@.len() == self.n,
            decreases self.poly@.len() - i,
        {
            let mut row: Vec<num_complex::Complex64> = Vec::new();
            let mut j: usize = 0;
            while j < self.n
                invariant
                    self.wf(),
                    rhs.wf(),
                    self.same_shape(rhs),
                    i < self.poly@.len(),
                    j <= self.n,
                    row@.len() == j,
                decreases self.n - j,
            {
                row.push(cx_mul(&self.poly[i][j], &rhs.poly[i][j]));
                j = j + 1;
            }
            poly.push(row);
            i = i + 1;
        }
        Dcrt { poly, n: self.n }
    }

    /// In-place componentwise addition.
    pub fn add_assign_with(&mut self, rhs: &Dcrt)
        requires
            old(self).wf(),
            rhs.wf(),
            old(self).same_shape(rhs),
        ensures
            final(self).wf(),
            final(self).same_shape(rhs),
    {
        let r = self.plus(rhs);
        *self = r;
    }

    /// In-place componentwise multiplication.
    pub fn mul_assign_with(&mut self, rhs: &Dcrt)
        requires
            old(self).wf(),
            rhs.wf(),
            old(self).same_shape(rhs),
        ensures
            final(self).wf(),
            final(self).same_shape(rhs),
    {
        let r = self.times(rhs);
        *self = r;
    }
}

/// The per-prime Euclidean residues of every coefficient: row `i` holds the
/// coefficients reduced modulo `primes[i]`, each in `[0, primes[i])` — the
/// exact integer half of the conversion into double-CRT form. The transform
/// of each row is floating-point work outside this library's proofs.
pub fn residues_mod_primes(a: &BigPolynomial, context: &DcrtContext) -> (r: Vec<Vec<u64>>)
    requires
        context.wf(),
    ensures
        r@.len() == context.primes@.len(),
        forall|i: int| 0 <= i < r@.len() ==> r@[i]@.len() == a@.len(),
        forall|i: int, j: int|
            0 <= i < r@.len() && 0 <= j < a@.len() ==> r@[i]@[j] as int == a@[j] % (
            context.primes@[i] as int),
{
    let mut r: Vec<Vec<u64>> = Vec::new();
    let mut i: usize = 0;
    while i < context.primes.len()
        invariant
            context.wf(),
            i <= context.primes@.len(),
            r@.len() == i,
            forall|t: int| 0 <= t < i ==> r@[t]@.len() == a@.len(),
            forall|t: int, j: int|
                0 <= t < i && 0 <= j < a@.len() ==> r@[t]@[j] as int == a@[j] % (
                context.primes@[t] as int),
        decreases context.primes@.len() - i,
    {
        let p_big = bn_from_i64(context.primes[i] as i64);
        let mut row: Vec<u64> = Vec::new();
        let mut j: usize = 0;
        while j < a.coeficients.len()
            invariant
                context.wf(),
                i < context.primes@.len(),
                big_val(p_big) == context.primes@[i as int] as int,
                j <= a@.len(),
                row@.len() == j,
                forall|t: int|
                    0 <= t < j ==> row@[t] as int == a@[t] % (context.primes@[i as int] as int),
            decreases a@.len() - j,
        {
            let reduced = bn_rem_euclid(&a.coeficients[j], &p_big);
            let v = match bn_to_i64(&reduced) {
                Some(v) => v,
                None => {
                    proof {
                        assert(false);
                    }
                    0
                },
            };
            row.push(v as u64);
            j = j + 1;
        }
        r.push(row);
        i = i + 1;
    }
    r
}

/// The integer sequence a machine-word congruence row stands for.
pub open spec fn ints_of(s: Seq<i64>) -> Seq<int> {
    s.map_values(|x: i64| x as int)
}

/// What one coefficient reconstructs to: the CRT combination of its rounded
/// congruences, reduced modulo M, then centered into the symmetric range.
pub open spec fn reconstructed(congs: Seq<int>, context: DcrtContext) -> int {
    centered(
        trunc_rem(
            crt_sum(
                congs,
                vals(context.m_i@),
                vals(context.m_i_inv_mod_pi@),
                congs.len() as int,
            ),
            big_val(context.m),
        ),
        big_val(context.m),
    )
}

/// Rebuilds the exact polynomial from rounded per-coefficient congruences:
/// CRT reconstruction, then centering into the symmetric range around zero —
/// the exact integer half of the conversion out of double-CRT form.
/// `congruences[j][i]` is coefficient `j`'s rounded residue for prime `i`.
pub fn poly_from_congruences(congruences: &Vec<Vec<i64>>, context: &DcrtContext) -> (r:
    BigPolynomial)
    requires
        context.wf(),
        big_val(context.m) >= 1,
        forall|j: int|
            0 <= j < congruences@.len() ==> congruences@[j]@.len() == context.primes@.len(),
    ensures
        r@.len() == congruences@.len(),
        forall|j: int|
            0 <= j < congruences@.len() ==> r@[j] == reconstructed(
                ints_of(congruences@[j]@),
                *context,
            ),
{
    let mut coeficients: Vec<num_bigint::BigInt> = Vec::new();
    let mut j: usize = 0;
    while j < congruences.len()
        invariant
            context.wf(),
            big_val(context.m) >= 1,
            forall|t: int|
                0 <= t < congruences@.len() ==> congruences@[t]@.len() == context.primes@.len(),
            j <= congruences@.len(),
            coeficients@.len() == j,
            forall|t: int|
                0 <= t < j ==> big_val(coeficients@[t]) == reconstructed(
                    ints_of(congruences@[t]@),
                    *context,
                ),
        decreases congruences@.len() - j,
    {
        let row = &congruences[j];
        let mut congs: Vec<num_bigint::BigInt> = Vec::new();
        let mut i: usize = 0;
        while i < row.len()
            invariant
                i <= row@.len(),
                congs@.len() == i,
                forall|t: int| 0 <= t < i ==> big_val(congs@[t]) == row@[t] as int,
            decreases row@.len() - i,
        {
            congs.push(bn_from_i64(row[i]));
            i = i + 1;
        }
        proof {
            assert(vals(congs@) =~= ints_of(row@));
        }
        let combined = crt(&congs, context);
        let centered_coef = centered_rem(&combined, &context.m);
        coeficients.push(centered_coef);
        j = j + 1;
    }
    let r = BigPolynomial { coeficients };
    proof {
        assert(r@.len() == congruences@.len());
    }
    r
}

/// The exact half of the round trip, proved: for any well-formed context and
/// any coefficient in the centered range of its modulus M, reconstructing the
/// coefficient's own per-prime residues gives the coefficient back exactly.
/// The context's stored inverses certify the coprimality that the Chinese
/// remainder theorem needs, so only the transform between the two exact
/// halves — never the integer arithmetic around it — can contribute error.
pub proof fn lemma_exact_reconstruction(c: int, ctx: DcrtContext)
    requires
        ctx.wf(),
        -(big_val(ctx.m) / 2) <= c,
        c + big_val(ctx.m) / 2 < big_val(ctx.m),
    ensures
        reconstructed(
            Seq::new(ctx.primes@.len(), |i: int| c % (ctx.primes@[i] as int)),
            ctx,
        ) == c,
{
    let s = ctx.primes@;
    let n = s.len() as int;
    let m = big_val(ctx.m);
    let congs = Seq::new(s.len(), |i: int| c % (s[i] as int));
    let mi = vals(ctx.m_i@);
    let inv = vals(ctx.m_i_inv_mod_pi@);
    let sum = crt_sum(congs, mi, inv, n);

    // The companions are the products of the other primes, so each is
    // non-negative and, modulo any other prime, zero.
    assert forall|t: int| 0 <= t < n implies mi[t] == prod_except(s, t) && mi[t] >= 1 by {
        lemma_prod_except(s, t);
    }

    // Modulo every selected prime, the combination agrees with c.
    assert forall|j: int| 0 <= j < n implies (sum - c) % (s[j] as int) == 0 by {
        let p = s[j] as int;
        assert forall|t: int| 0 <= t < n && t != j implies mi[t] % p == 0 by {
            lemma_prod_except_divisible(s, t, j);
        }
        lemma_crt_sum_mod_vanish(congs, mi, inv, p, j, n);
        assert(congs[j] == c % p);
        assert(congs[j] * mi[j] * inv[j] == congs[j] * (inv[j] * mi[j])) by (nonlinear_arith);
        vstd::arithmetic::div_mod::lemma_mul_mod_noop_right(congs[j], inv[j] * mi[j], p);
        assert(congs[j] * 1 == congs[j]);
        vstd::arithmetic::div_mod::lemma_mod_twice(c, p);
        assert(sum % p == c % p);
        vstd::arithmetic::div_mod::lemma_sub_mod_noop(sum, c, p);
        assert(0int % p == 0);
    }

    // Hence the whole modulus M divides sum - c.
    lemma_primes_divide_product(sum - c, ctx, n);

    // The combination is non-negative, so its truncated remainder is the
    // Euclidean one.
    assert forall|t: int| 0 <= t < n implies congs[t] >= 0 by {
        vstd::arithmetic::div_mod::lemma_mod_bound(c, s[t] as int);
    }
    lemma_crt_sum_nonneg(congs, mi, inv, n);
    lemma_trunc_div_mod(sum, m);
    assert(trunc_rem(sum, m) == sum % m);

    // sum and c agree modulo M, so their Euclidean remainders agree.
    vstd::arithmetic::div_mod::lemma_sub_mod_noop(sum, c, m);
    vstd::arithmetic::div_mod::lemma_mod_bound(sum, m);
    vstd::arithmetic::div_mod::lemma_mod_bound(c, m);
    let d = sum % m - c % m;
    assert(d % m == 0);
    if d > 0 {
        vstd::arithmetic::div_mod::lemma_small_mod(d as nat, m as nat);
        assert(false);
    }
    if d < 0 {
        vstd::arithmetic::div_mod::lemma_mod_multiples_vanish(1, d, m);
        vstd::arithmetic::div_mod::lemma_small_mod((d + m) as nat, m as nat);
        assert(false);
    }
    assert(sum % m == c % m);

    // Centering only reads the remainder, and on the centered range it is
    // the identity.
    let h = m / 2;
    vstd::arithmetic::div_mod::lemma_small_mod(h as nat, m as nat);
    vstd::arithmetic::div_mod::lemma_add_mod_noop(sum % m, h, m);
    vstd::arithmetic::div_mod::lemma_add_mod_noop(c, h, m);
    vstd::arithmetic::div_mod::lemma_mod_twice(sum, m);
    assert((sum % m + h) % m == (c + h) % m);
    assert(centered(sum % m, m) == centered(c, m));
    lemma_centered_props(c, m);
}

/// Componentwise product-and-accumulate of two equal-length vectors of
/// double-CRT values of one shape: Σ a[i] · b[i], folded from the first
/// pairwise product so that no context-free zero value is needed. Empty or
/// mismatched input is a caller error, excluded here; `try_inner_product`
/// reports it instead of computing anything.
pub fn inner_product(a: &Vec<Dcrt>, b: &Vec<Dcrt>) -> (r: Dcrt)
    requires
        a@.len() == b@.len(),
        a@.len() >= 1,
        forall|i: int| 0 <= i < a@.len() ==> (#[trigger] a@[i]).wf(),
        forall|i: int| 0 <= i < b@.len() ==> (#[trigger] b@[i]).wf(),
        forall|i: int| 0 <= i < a@.len() ==> (#[trigger] a@[i]).same_shape(&a@[0]),
        forall|i: int| 0 <= i < b@.len() ==> (#[trigger] b@[i]).same_shape(&a@[0]),
    ensures
        r.wf(),
        r.same_shape(&a@[0]),
{
    let mut res = a[0].times(&b[0]);
    let mut i: usize = 1;
    while i < a.len()
        invariant
            a@.len() == b@.len(),
            1 <= i <= a@.len(),
            forall|t: int| 0 <= t < a@.len() ==> (#[trigger] a@[t]).wf(),
            forall|t: int| 0 <= t < b@.len() ==> (#[trigger] b@[t]).wf(),
            forall|t: int| 0 <= t < a@.len() ==> (#[trigger] a@[t]).same_shape(&a@[0]),
            forall|t: int| 0 <= t < b@.len() ==> (#[trigger] b@[t]).same_shape(&a@[0]),
            res.wf(),
            res.same_shape(&a@[0]),
        decreases a@.len() - i,
    {
        let prod = a[i].times(&b[i]);
        let acc = res.plus(&prod);
        res = acc;
        i = i + 1;
    }
    res
}

/// Checked inner product: `None` exactly on empty input, a length mismatch,
/// or any shape mismatch between the entries — never a silent zero.
pub fn try_inner_product(a: &Vec<Dcrt>, b: &Vec<Dcrt>) -> (r: Option<Dcrt>)
    ensures
        r is Some <==> (a@.len() == b@.len() && a@.len() >= 1 && (forall|i: int|
            0 <= i < a@.len() ==> (#[trigger] a@[i]).wf()) && (forall|i: int|
            0 <= i < b@.len() ==> (#[trigger] b@[i]).wf()) && (forall|i: int|
            0 <= i < a@.len() ==> (#[trigger] a@[i]).same_shape(&a@[0])) && (forall|i: int|
            0 <= i < b@.len() ==> (#[trigger] b@[i]).same_shape(&a@[0]))),
        r matches Some(v) ==> v.wf() && v.same_shape(&a@[0]),
{
    if a.len() != b.len() || a.len() == 0 {
        return None;
    }
    let n0 = a[0].n;
    let rows0 = a[0].poly.len();
    let mut i: usize = 0;
    while i < a.len()
        invariant
            a@.len() == b@.len(),
            a@.len() >= 1,
            n0 == a@[0].n,
            rows0 == a@[0].poly@.len(),
            i <= a@.len(),
            forall|t: int| 0 <= t < i ==> (#[trigger] a@[t]).wf(),
            forall|t: int| 0 <= t < i ==> (#[trigger] b@[t]).wf(),
            forall|t: int| 0 <= t < i ==> (#[trigger] a@[t]).same_shape(&a@[0]),
            forall|t: int| 0 <= t < i ==> (#[trigger] b@[t]).same_shape(&a@[0]),
        decreases a@.len() - i,
    {
        if a[i].n != n0 || a[i].poly.len() != rows0 || !a[i].check_wf() {
            return None;
        }
        if b[i].n != n0 || b[i].poly.len() != rows0 || !b[i].check_wf() {
            return None;
        }
        i = i + 1;
    }
    Some(inner_product(a, b))
}

} // verus!
