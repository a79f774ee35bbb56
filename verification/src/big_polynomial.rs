//! Ring elements of Z[x]/(x^N + 1) in exact arbitrary-precision form.

use vstd::prelude::*;

verus! {

use vstd::pervasive::VecAdditionalExecFns;
use vstd::arithmetic::power2::pow2;
use crate::arith::abs1;
use crate::bignum::{
    big_val,
    bn_from_i64,
    bn_plus,
    bn_minus,
    bn_times,
    bn_div_trunc,
    bn_rem_euclid,
    bn_eq,
    bn_to_i64,
    bn_to_decimal,
    fresh_rng,
    gen_signed_bits,
};
use crate::poly_spec::{
    padded,
    max_len,
    seq_add,
    seq_sub,
    seq_scale,
    seq_div_trunc,
    seq_rem_euclid,
    fold_term,
    fold_sum,
    seq_module,
    row_at,
    rows_sum,
    negmul_at,
    seq_negmul,
    lemma_fold_sum_bound,
};

/// An ordered sequence of arbitrary-precision signed coefficients, index `i`
/// holding the coefficient of `x^i`.
#[derive(Debug, Clone, PartialEq, Eq)]
pub struct BigPolynomial {
    pub coeficients: Vec<num_bigint::BigInt>,
}

impl View for BigPolynomial {
    type V = Seq<int>;

    open spec fn view(&self) -> Seq<int> {
        self.coeficients@.map_values(|c: num_bigint::BigInt| big_val(c))
    }
}

impl BigPolynomial {
    /// The zero polynomial with the given number of coefficients.
    pub fn new(qt_coeficients: usize) -> (r: BigPolynomial)
        ensures
            r@.len() == qt_coeficients,
            forall|i: int| 0 <= i < qt_coeficients ==> r@[i] == 0,
    {
        let mut coeficients: Vec<num_bigint::BigInt> = Vec::new();
        while coeficients.len() < qt_coeficients
            invariant
                coeficients@.len() <= qt_coeficients,
                forall|i: int| 0 <= i < coeficients@.len() ==> big_val(coeficients@[i]) == 0,
            decreases qt_coeficients - coeficients.len(),
        {
            coeficients.push(bn_from_i64(0));
        }
        BigPolynomial { coeficients }
    }

    /// The number of coefficients.
    pub fn degree(&self) -> (r: usize)
        ensures
            r == self@.len(),
    {
        self.coeficients.len()
    }

    /// A copy with the same coefficient values.
    pub fn dup(&self) -> (r: BigPolynomial)
        ensures
            r@ == self@,
    {
        let mut coeficients: Vec<num_bigint::BigInt> = Vec::new();
        let mut i: usize = 0;
        while i < self.coeficients.len()
            invariant
                i <= self.coeficients@.len(),
                coeficients@.len() == i,
                forall|t: int|
                    0 <= t < i ==> big_val(coeficients@[t]) == big_val(self.coeficients@[t]),
            decreases self.coeficients@.len() - i,
        {
            coeficients.push(self.coeficients[i].clone());
            i = i + 1;
        }
        let r = BigPolynomial { coeficients };
        proof {
            assert(r@ =~= self@);
        }
        r
    }

    /// `qt_coeficients` random signed integers of at most `size` bits each,
    /// reduced modulo x^degree + 1: the result is the reduction of some
    /// sequence of samples drawn strictly within `(-2^size, 2^size)`.
    pub fn rand(qt_coeficients: usize, size: u32, degree: u32) -> (r: BigPolynomial)
        requires
            degree >= 1,
        ensures
            r@.len() == degree,
            forall|k: int|
                0 <= k < degree ==> abs1(r@[k]) <= qt_coeficients * (pow2(size as nat) - 1),
            exists|v: Seq<int>|
                v.len() == qt_coeficients && (forall|t: int|
                    0 <= t < v.len() ==> -(pow2(size as nat) as int) < #[trigger] v[t] < pow2(
                        size as nat,
                    ) as int) && r@ == seq_module(v, degree as nat),
    {
        let mut rng = fresh_rng();
        let mut coeficients: Vec<num_bigint::BigInt> = Vec::new();
        while coeficients.len() < qt_coeficients
            invariant
                coeficients@.len() <= qt_coeficients,
                forall|t: int|
                    0 <= t < coeficients@.len() ==> -(pow2(size as nat) as int) < #[trigger] big_val(
                        coeficients@[t],
                    ) < pow2(size as nat) as int,
            decreases qt_coeficients - coeficients.len(),
        {
            coeficients.push(gen_signed_bits(&mut rng, size as u64));
        }
        let poly = BigPolynomial { coeficients };
        let res = poly.module(degree as usize);
        proof {
            assert forall|k: int| 0 <= k < degree implies abs1(res@[k]) <= qt_coeficients * (pow2(
                size as nat,
            ) - 1) by {
                assert(forall|t: int| 0 <= t < poly@.len() ==> abs1(#[trigger] poly@[t]) <= pow2(
                    size as nat,
                ) - 1);
                lemma_fold_sum_bound(
                    poly@,
                    degree as int,
                    k,
                    poly@.len() as int,
                    pow2(size as nat) - 1,
                );
            }
            let v = poly@;
            assert(v.len() == qt_coeficients && (forall|t: int|
                0 <= t < v.len() ==> -(pow2(size as nat) as int) < #[trigger] v[t] < pow2(
                    size as nat,
                ) as int) && res@ == seq_module(v, degree as nat));
        }
        res
    }

    /// Reduction modulo x^n + 1: coefficient `i` folds into slot `i % n`,
    /// negated on every odd wrap, since x^n == -1.
    pub fn module(&self, n: usize) -> (r: BigPolynomial)
        requires
            n >= 1,
        ensures
            r@ == seq_module(self@, n as nat),
            r@.len() == n,
    {
        let mut res = BigPolynomial::new(n);
        let len = self.coeficients.len();
        let mut i: usize = 0;
        while i < len
            invariant
                n >= 1,
                len == self@.len(),
                res.coeficients@.len() == n,
                i <= len,
                forall|k: int| 0 <= k < n ==> res@[k] == fold_sum(self@, n as int, k, i as int),
            decreases len - i,
        {
            let ghost pre = res@;
            let degree = i % n;
            let wrap_count = i / n;
            let updated = if wrap_count % 2 == 1 {
                bn_minus(&res.coeficients[degree], &self.coeficients[i])
            } else {
                bn_plus(&res.coeficients[degree], &self.coeficients[i])
            };
            proof {
                assert(big_val(updated) == pre[degree as int] + fold_term(
                    self@,
                    n as int,
                    degree as int,
                    i as int,
                ));
            }
            res.coeficients.set(degree, updated);
            proof {
                assert forall|k: int| 0 <= k < n implies res@[k] == fold_sum(
                    self@,
                    n as int,
                    k,
                    i + 1,
                ) by {
                    assert(fold_sum(self@, n as int, k, i + 1) == fold_sum(
                        self@,
                        n as int,
                        k,
                        i as int,
                    ) + fold_term(self@, n as int, k, i as int));
                    assert(res@[k] == big_val(res.coeficients@[k]));
                    if k == degree as int {
                        assert(res@[k] == big_val(updated));
                    } else {
                        assert(res@[k] == pre[k]);
                        assert(fold_term(self@, n as int, k, i as int) == 0);
                    }
                }
            }
            i = i + 1;
        }
        proof {
            assert(res@ =~= seq_module(self@, n as nat));
        }
        res
    }

    /// Coefficientwise sum over the padded maximum length; neither input is
    /// changed.
    pub fn plus(&self, rhs: &BigPolynomial) -> (r: BigPolynomial)
        ensures
            r@ == seq_add(self@, rhs@),
    {
        let la = self.coeficients.len();
        let lb = rhs.coeficients.len();
        let degree = if la >= lb {
            la
        } else {
            lb
        };
        let zero = bn_from_i64(0);
        let mut coeficients: Vec<num_bigint::BigInt> = Vec::new();
        let mut i: usize = 0;
        while i < degree
            invariant
                la == self@.len(),
                lb == rhs@.len(),
                degree == max_len(self@, rhs@),
                i <= degree,
                big_val(zero) == 0,
                coeficients@.len() == i,
                forall|t: int|
                    0 <= t < i ==> big_val(coeficients@[t]) == padded(self@, t) + padded(rhs@, t),
            decreases degree - i,
        {
            let c1 = if i < la {
                &self.coeficients[i]
            } else {
                &zero
            };
            let c2 = if i < lb {
                &rhs.coeficients[i]
            } else {
                &zero
            };
            coeficients.push(bn_plus(c1, c2));
            i = i + 1;
        }
        let r = BigPolynomial { coeficients };
        proof {
            assert(r@ =~= seq_add(self@, rhs@));
        }
        r
    }

    /// Coefficientwise difference over the padded maximum length.
    pub fn minus(&self, rhs: &BigPolynomial) -> (r: BigPolynomial)
        ensures
            r@ == seq_sub(self@, rhs@),
    {
        let la = self.coeficients.len();
        let lb = rhs.coeficients.len();
        let degree = if la >= lb {
            la
        } else {
            lb
        };
        let zero = bn_from_i64(0);
        let mut coeficients: Vec<num_bigint::BigInt> = Vec::new();
        let mut i: usize = 0;
        while i < degree
            invariant
                la == self@.len(),
                lb == rhs@.len(),
                degree == max_len(self@, rhs@),
                i <= degree,
                big_val(zero) == 0,
                coeficients@.len() == i,
                forall|t: int|
                    0 <= t < i ==> big_val(coeficients@[t]) == padded(self@, t) - padded(rhs@, t),
            decreases degree - i,
        {
            let c1 = if i < la {
                &self.coeficients[i]
            } else {
                &zero
            };
            let c2 = if i < lb {
                &rhs.coeficients[i]
            } else {
                &zero
            };
            coeficients.push(bn_minus(c1, c2));
            i = i + 1;
        }
        let r = BigPolynomial { coeficients };
        proof {
            assert(r@ =~= seq_sub(self@, rhs@));
        }
        r
    }

    /// Full negacyclic convolution into length max(deg a, deg b): the product
    /// of coefficients `i` and `j` lands in slot `(i + j) mod n`, subtracted
    /// rather than added when `i + j` wraps past `n`, since x^n == -1.
    ///
    /// This exact-integer product is the ground truth that the transform
    /// pipeline's rounding error is measured against.
    pub fn times(&self, rhs: &BigPolynomial) -> (r: BigPolynomial)
        requires
            self@.len() <= usize::MAX / 2,
            rhs@.len() <= usize::MAX / 2,
        ensures
            r@ == seq_negmul(self@, rhs@),
    {
        let la = self.coeficients.len();
        let lb = rhs.coeficients.len();
        let n = if la >= lb {
            la
        } else {
            lb
        };
        let mut coeficients: Vec<num_bigint::BigInt> = Vec::new();
        let mut k: usize = 0;
        while k < n
            invariant
                la == self@.len(),
                lb == rhs@.len(),
                n == max_len(self@, rhs@),
                n <= usize::MAX / 2,
                k <= n,
                coeficients@.len() == k,
                forall|t: int|
                    0 <= t < k ==> big_val(coeficients@[t]) == negmul_at(self@, rhs@, n as int, t),
            decreases n - k,
        {
            let mut acc = bn_from_i64(0);
            let mut i: usize = 0;
            while i < la
                invariant
                    la == self@.len(),
                    lb == rhs@.len(),
                    n == max_len(self@, rhs@),
                    n <= usize::MAX / 2,
                    k < n,
                    i <= la,
                    big_val(acc) == rows_sum(self@, rhs@, n as int, k as int, i as int),
                decreases la - i,
            {
                if i <= k && k - i < lb {
                    acc = bn_plus(&acc, &bn_times(&self.coeficients[i], &rhs.coeficients[k - i]));
                }
                let j2 = k + n - i;
                if j2 < lb {
                    acc = bn_minus(&acc, &bn_times(&self.coeficients[i], &rhs.coeficients[j2]));
                }
                proof {
                    assert(rows_sum(self@, rhs@, n as int, k as int, i + 1) == rows_sum(
                        self@,
                        rhs@,
                        n as int,
                        k as int,
                        i as int,
                    ) + row_at(self@, rhs@, n as int, k as int, i as int));
                }
                i = i + 1;
            }
            coeficients.push(acc);
            k = k + 1;
        }
        let r = BigPolynomial { coeficients };
        proof {
            assert(r@ =~= seq_negmul(self@, rhs@));
        }
        r
    }

    /// Every coefficient multiplied by the scalar `c`.
    pub fn scale(&self, c: &num_bigint::BigInt) -> (r: BigPolynomial)
        ensures
            r@ == seq_scale(big_val(*c), self@),
    {
        let mut coeficients: Vec<num_bigint::BigInt> = Vec::new();
        let mut i: usize = 0;
        while i < self.coeficients.len()
            invariant
                i <= self@.len(),
                coeficients@.len() == i,
                forall|t: int| 0 <= t < i ==> big_val(coeficients@[t]) == big_val(*c) * self@[t],
            decreases self@.len() - i,
        {
            coeficients.push(bn_times(c, &self.coeficients[i]));
            i = i + 1;
        }
        let r = BigPolynomial { coeficients };
        proof {
            assert(r@ =~= seq_scale(big_val(*c), self@));
        }
        r
    }

    /// Every coefficient divided by `rhs`, truncating toward zero.
    pub fn div_scalar(&self, rhs: &num_bigint::BigInt) -> (r: BigPolynomial)
        requires
            big_val(*rhs) != 0,
        ensures
            r@ == seq_div_trunc(self@, big_val(*rhs)),
    {
        let mut coeficients: Vec<num_bigint::BigInt> = Vec::new();
        let mut i: usize = 0;
        while i < self.coeficients.len()
            invariant
                big_val(*rhs) != 0,
                i <= self@.len(),
                coeficients@.len() == i,
                forall|t: int|
                    0 <= t < i ==> big_val(coeficients@[t]) == crate::arith::trunc_div(
                        self@[t],
                        big_val(*rhs),
                    ),
            decreases self@.len() - i,
        {
            coeficients.push(bn_div_trunc(&self.coeficients[i], rhs));
            i = i + 1;
        }
        let r = BigPolynomial { coeficients };
        proof {
            assert(r@ =~= seq_div_trunc(self@, big_val(*rhs)));
        }
        r
    }

    /// Every coefficient replaced by its least non-negative residue modulo
    /// `rhs` (the Euclidean convention required by downstream reduction).
    pub fn rem_scalar(&self, rhs: &num_bigint::BigInt) -> (r: BigPolynomial)
        requires
            big_val(*rhs) > 0,
        ensures
            r@ == seq_rem_euclid(self@, big_val(*rhs)),
    {
        let mut coeficients: Vec<num_bigint::BigInt> = Vec::new();
        let mut i: usize = 0;
        while i < self.coeficients.len()
            invariant
                big_val(*rhs) > 0,
                i <= self@.len(),
                coeficients@.len() == i,
                forall|t: int| 0 <= t < i ==> big_val(coeficients@[t]) == self@[t] % big_val(*rhs),
            decreases self@.len() - i,
        {
            coeficients.push(bn_rem_euclid(&self.coeficients[i], rhs));
            i = i + 1;
        }
        let r = BigPolynomial { coeficients };
        proof {
            assert(r@ =~= seq_rem_euclid(self@, big_val(*rhs)));
        }
        r
    }

    /// Whether the two polynomials hold the same coefficient values.
    pub fn eq_poly(&self, other: &BigPolynomial) -> (r: bool)
        ensures
            r == (self@ == other@),
    {
        if self.coeficients.len() != other.coeficients.len() {
            proof {
                assert(self@.len() != other@.len());
            }
            return false;
        }
        let mut i: usize = 0;
        while i < self.coeficients.len()
            invariant
                self@.len() == other@.len(),
                i <= self@.len(),
                forall|t: int| 0 <= t < i ==> self@[t] == other@[t],
            decreases self@.len() - i,
        {
            if !bn_eq(&self.coeficients[i], &other.coeficients[i]) {
                proof {
                    assert(self@[i as int] != other@[i as int]);
                }
                return false;
            }
            i = i + 1;
        }
        proof {
            assert(self@ =~= other@);
        }
        true
    }

    /// Builds a polynomial from machine-integer coefficients.
    pub fn from_i64_values(vals: &Vec<i64>) -> (r: BigPolynomial)
        ensures
            r@.len() == vals@.len(),
            forall|i: int| 0 <= i < vals@.len() ==> r@[i] == vals@[i] as int,
    {
        let mut coeficients: Vec<num_bigint::BigInt> = Vec::new();
        let mut i: usize = 0;
        while i < vals.len()
            invariant
                i <= vals@.len(),
                coeficients@.len() == i,
                forall|t: int| 0 <= t < i ==> big_val(coeficients@[t]) == vals@[t] as int,
            decreases vals@.len() - i,
        {
            coeficients.push(bn_from_i64(vals[i]));
            i = i + 1;
        }
        BigPolynomial { coeficients }
    }

    /// Reads coefficient `i` back as a machine integer when it fits.
    pub fn get_i64(&self, i: usize) -> (r: Option<i64>)
        requires
            i < self@.len(),
        ensures
            r matches Some(v) ==> v as int == self@[i as int],
            r is None ==> !(i64::MIN <= self@[i as int] <= i64::MAX),
    {
        bn_to_i64(&self.coeficients[i])
    }

    /// Decimal text of coefficient `i`, for display.
    pub fn coef_decimal(&self, i: usize) -> String
        requires
            i < self@.len(),
    {
        bn_to_decimal(&self.coeficients[i])
    }
}

/// The running value of the inner product of the first `i` pairs, as the
/// implementation folds it: the first pairwise product, then sums.
pub open spec fn ip_partial(a: Seq<BigPolynomial>, b: Seq<BigPolynomial>, i: int) -> Seq<int>
    decreases i,
{
    if i <= 1 {
        seq_negmul(a[0]@, b[0]@)
    } else {
        seq_add(ip_partial(a, b, i - 1), seq_negmul(a[i - 1]@, b[i - 1]@))
    }
}

/// Exact inner product of two equal-length vectors of polynomials:
/// Σ a[i] · b[i], folded from the first pairwise product. An empty input
/// yields the empty polynomial.
pub fn inner_product_big_poly(a: &Vec<BigPolynomial>, b: &Vec<BigPolynomial>) -> (r: BigPolynomial)
    requires
        a@.len() == b@.len(),
        forall|i: int| 0 <= i < a@.len() ==> a@[i]@.len() <= usize::MAX / 4,
        forall|i: int| 0 <= i < b@.len() ==> b@[i]@.len() <= usize::MAX / 4,
    ensures
        a@.len() == 0 ==> r@.len() == 0,
        a@.len() >= 1 ==> r@ == ip_partial(a@, b@, a@.len() as int),
{
    if a.len() == 0 {
        return BigPolynomial::new(0);
    }
    let mut res = a[0].times(&b[0]);
    let mut i: usize = 1;
    while i < a.len()
        invariant
            a@.len() == b@.len(),
            1 <= i <= a@.len(),
            forall|t: int| 0 <= t < a@.len() ==> a@[t]@.len() <= usize::MAX / 4,
            forall|t: int| 0 <= t < b@.len() ==> b@[t]@.len() <= usize::MAX / 4,
            res@ == ip_partial(a@, b@, i as int),
            res@.len() <= usize::MAX / 4,
        decreases a@.len() - i,
    {
        let prod = a[i].times(&b[i]);
        res = res.plus(&prod);
        i = i + 1;
    }
    res
}

} // verus!
