//! Coefficient-sequence models of the ring operations.
//!
//! A polynomial is modelled as the sequence of its coefficients, index `i`
//! holding the coefficient of `x^i`. The functions here say what each ring
//! operation returns, coefficient by coefficient; the executable methods of
//! `BigPolynomial` promise exactly these sequences.

use vstd::prelude::*;

verus! {

use crate::arith::{abs1, trunc_div, trunc_rem};

/// Coefficient `i` of `s`, reading absent entries as zero.
pub open spec fn padded(s: Seq<int>, i: int) -> int {
    if 0 <= i < s.len() {
        s[i]
    } else {
        0
    }
}

/// The longer of the two lengths.
pub open spec fn max_len(a: Seq<int>, b: Seq<int>) -> nat {
    if a.len() >= b.len() {
        a.len()
    } else {
        b.len()
    }
}

/// Coefficientwise sum over the padded common length.
pub open spec fn seq_add(a: Seq<int>, b: Seq<int>) -> Seq<int> {
    Seq::new(max_len(a, b), |i: int| padded(a, i) + padded(b, i))
}

/// Coefficientwise difference over the padded common length.
pub open spec fn seq_sub(a: Seq<int>, b: Seq<int>) -> Seq<int> {
    Seq::new(max_len(a, b), |i: int| padded(a, i) - padded(b, i))
}

/// Every coefficient scaled by `c`.
pub open spec fn seq_scale(c: int, s: Seq<int>) -> Seq<int> {
    s.map_values(|x: int| c * x)
}

/// Every coefficient divided by `d`, truncating toward zero.
pub open spec fn seq_div_trunc(s: Seq<int>, d: int) -> Seq<int> {
    s.map_values(|x: int| trunc_div(x, d))
}

/// Every coefficient replaced by its least non-negative residue modulo `m`.
pub open spec fn seq_rem_euclid(s: Seq<int>, m: int) -> Seq<int> {
    s.map_values(|x: int| x % m)
}

/// The term that `s[i]` folds into slot `k` of the reduction modulo
/// `x^n + 1`: since `x^n == -1`, the contribution is negated on every odd
/// wrap.
pub open spec fn fold_term(s: Seq<int>, n: int, k: int, i: int) -> int {
    if i % n == k {
        if (i / n) % 2 == 0 {
            s[i]
        } else {
            -s[i]
        }
    } else {
        0
    }
}

/// Partial fold of the first `i` coefficients into slot `k`.
pub open spec fn fold_sum(s: Seq<int>, n: int, k: int, i: int) -> int
    decreases i,
{
    if i <= 0 {
        0
    } else {
        fold_sum(s, n, k, i - 1) + fold_term(s, n, k, i - 1)
    }
}

/// Coefficient `k` of `s` reduced modulo `x^n + 1`.
pub open spec fn neg_fold(s: Seq<int>, n: int, k: int) -> int {
    fold_sum(s, n, k, s.len() as int)
}

/// `s` reduced modulo `x^n + 1`: length `n`, folded coefficientwise.
pub open spec fn seq_module(s: Seq<int>, n: nat) -> Seq<int> {
    Seq::new(n, |k: int| neg_fold(s, n as int, k))
}

/// Partial folds are additive in the folded sequence.
proof fn lemma_fold_sum_additive(a: Seq<int>, b: Seq<int>, n: int, k: int, i: int)
    requires
        n >= 1,
        a.len() == b.len(),
        0 <= i <= a.len(),
    ensures
        fold_sum(seq_add(a, b), n, k, i) == fold_sum(a, n, k, i) + fold_sum(b, n, k, i),
    decreases i,
{
    if i > 0 {
        lemma_fold_sum_additive(a, b, n, k, i - 1);
        assert(seq_add(a, b)[i - 1] == a[i - 1] + b[i - 1]);
    }
}

/// Reduction modulo x^n + 1 is linear: folding the sum of two equal-length
/// polynomials gives the sum of their folds. This is the exact-integer side
/// of the transform pipeline's additive homomorphism: adding before or after
/// reduction cannot disagree.
pub proof fn lemma_module_additive(a: Seq<int>, b: Seq<int>, n: nat)
    requires
        n >= 1,
        a.len() == b.len(),
    ensures
        seq_module(seq_add(a, b), n) == seq_add(seq_module(a, n), seq_module(b, n)),
{
    assert forall|k: int| 0 <= k < n implies seq_module(seq_add(a, b), n)[k] == seq_add(
        seq_module(a, n),
        seq_module(b, n),
    )[k] by {
        lemma_fold_sum_additive(a, b, n as int, k, a.len() as int);
    }
    assert(seq_module(seq_add(a, b), n) =~= seq_add(seq_module(a, n), seq_module(b, n)));
}

/// Row `i`'s contribution to coefficient `k` of the negacyclic product: the
/// plain convolution term, and the wrapped term negated by `x^n == -1`.
pub open spec fn row_at(a: Seq<int>, b: Seq<int>, n: int, k: int, i: int) -> int {
    (if 0 <= k - i < b.len() {
        a[i] * b[k - i]
    } else {
        0
    }) - (if 0 <= k + n - i < b.len() {
        a[i] * b[k + n - i]
    } else {
        0
    })
}

/// Sum of the first `i` rows' contributions to coefficient `k`.
pub open spec fn rows_sum(a: Seq<int>, b: Seq<int>, n: int, k: int, i: int) -> int
    decreases i,
{
    if i <= 0 {
        0
    } else {
        rows_sum(a, b, n, k, i - 1) + row_at(a, b, n, k, i - 1)
    }
}

/// Coefficient `k` of `a · b` in `Z[x]/(x^n + 1)`.
pub open spec fn negmul_at(a: Seq<int>, b: Seq<int>, n: int, k: int) -> int {
    rows_sum(a, b, n, k, a.len() as int)
}

/// The negacyclic product of `a` and `b`, of length `max(len a, len b)`.
pub open spec fn seq_negmul(a: Seq<int>, b: Seq<int>) -> Seq<int> {
    Seq::new(max_len(a, b), |k: int| negmul_at(a, b, max_len(a, b) as int, k))
}

/// The representative of `c` modulo `m` in the range centered on zero.
pub open spec fn centered(c: int, m: int) -> int {
    (c + m / 2) % m - m / 2
}

/// Every coefficient centered modulo `m`.
pub open spec fn seq_centered(s: Seq<int>, m: int) -> Seq<int> {
    s.map_values(|x: int| centered(x, m))
}

/// Division rounded to the nearest integer, halves away from zero: half the
/// denominator is shifted toward the dividend's sign before truncating.
pub open spec fn round_div(num: int, den: int) -> int {
    if num > 0 {
        trunc_div(num + den / 2, den)
    } else {
        trunc_div(num - den / 2, den)
    }
}

/// Every coefficient divided by `den`, rounded to the nearest integer.
pub open spec fn seq_round_div(s: Seq<int>, den: int) -> Seq<int> {
    s.map_values(|x: int| round_div(x, den))
}

/// The centered representative is congruent to its argument, lies in the
/// range `[-(m/2), m - 1 - m/2]`, and is the identity exactly there: centering
/// inverts reduction modulo `m` for every value in the range.
pub proof fn lemma_centered_props(c: int, m: int)
    requires
        m >= 1,
    ensures
        0 <= centered(c, m) + m / 2 < m,
        centered(c, m) % m == c % m,
        -(m / 2) <= c && c + m / 2 < m ==> centered(c, m) == c,
{
    let h = m / 2;
    vstd::arithmetic::div_mod::lemma_mod_bound(c + h, m);
    assert(0 <= h < m);
    vstd::arithmetic::div_mod::lemma_small_mod(h as nat, m as nat);
    vstd::arithmetic::div_mod::lemma_sub_mod_noop(c + h, h, m);
    if -(m / 2) <= c && c + m / 2 < m {
        vstd::arithmetic::div_mod::lemma_small_mod((c + h) as nat, m as nat);
    }
}

/// Rounded division really is division to the nearest integer: the remainder
/// it leaves is at most half the denominator in magnitude.
pub proof fn lemma_round_div_nearest(num: int, den: int)
    requires
        den >= 1,
    ensures
        2 * abs1(num - round_div(num, den) * den) <= den,
{
    let h = den / 2;
    vstd::arithmetic::div_mod::lemma_fundamental_div_mod(den, 2);
    vstd::arithmetic::div_mod::lemma_mod_bound(den, 2);
    assert(den == 2 * h + den % 2);
    if num > 0 {
        crate::arith::lemma_trunc_div_mod(num + h, den);
        let q = round_div(num, den);
        assert(q == (num + h) / den);
        vstd::arithmetic::div_mod::lemma_fundamental_div_mod(num + h, den);
        vstd::arithmetic::div_mod::lemma_mod_bound(num + h, den);
        assert(num - q * den == (num + h) % den - h);
    } else {
        let y = h - num;
        crate::arith::lemma_trunc_div_mod(num - h, den);
        let q = round_div(num, den);
        assert(q == -(y / den));
        vstd::arithmetic::div_mod::lemma_fundamental_div_mod(y, den);
        vstd::arithmetic::div_mod::lemma_mod_bound(y, den);
        assert(q * den == -(y / den) * den);
        assert((-(y / den)) * den == -((y / den) * den)) by (nonlinear_arith);
        assert((y / den) * den == y - y % den);
        assert(num - q * den == num + (y - y % den));
        assert(num - q * den == h - y % den);
    }
}

/// Truncated remainder modulo `n`, shifted down by `n` when twice the
/// remainder exceeds `n`.
pub open spec fn sym_mod_val(a: int, n: int) -> int {
    let v = trunc_rem(a, n);
    if 2 * v > n {
        v - n
    } else {
        v
    }
}

/// Value of a little-endian sequence of base-`b` digits.
pub open spec fn digits_val(s: Seq<int>, b: int) -> int
    decreases s.len(),
{
    if s.len() == 0 {
        0
    } else {
        s[0] + b * digits_val(s.drop_first(), b)
    }
}

/// Appending a digit adds it at the next power of the base.
pub proof fn lemma_digits_val_push(s: Seq<int>, b: int, d: int)
    ensures
        digits_val(s.push(d), b) == digits_val(s, b) + d * vstd::arithmetic::power::pow(
            b,
            s.len(),
        ),
    decreases s.len(),
{
    if s.len() == 0 {
        let sp = s.push(d);
        assert(sp.drop_first() =~= Seq::<int>::empty());
        assert(digits_val(sp.drop_first(), b) == 0);
        assert(digits_val(sp, b) == sp[0] + b * digits_val(sp.drop_first(), b));
        vstd::arithmetic::power::lemma_pow0(b);
    } else {
        assert(s.push(d).drop_first() =~= s.drop_first().push(d));
        lemma_digits_val_push(s.drop_first(), b, d);
        vstd::arithmetic::power::lemma_pow1(b);
        vstd::arithmetic::power::lemma_pow_adds(b, 1, (s.len() - 1) as nat);
        assert(vstd::arithmetic::power::pow(b, s.len()) == b * vstd::arithmetic::power::pow(
            b,
            s.drop_first().len(),
        ));
        assert(digits_val(s.push(d), b) == s[0] + b * digits_val(s.drop_first().push(d), b));
        assert(b * (digits_val(s.drop_first(), b) + d * vstd::arithmetic::power::pow(
            b,
            s.drop_first().len(),
        )) == b * digits_val(s.drop_first(), b) + d * (b * vstd::arithmetic::power::pow(
            b,
            s.drop_first().len(),
        ))) by (nonlinear_arith);
    }
}

/// A partial fold of coefficients each at most `bound` in magnitude is at
/// most `i` times `bound` in magnitude.
pub proof fn lemma_fold_sum_bound(s: Seq<int>, n: int, k: int, i: int, bound: int)
    requires
        0 <= i <= s.len(),
        n >= 1,
        forall|t: int| 0 <= t < s.len() ==> abs1(s[t]) <= bound,
    ensures
        abs1(fold_sum(s, n, k, i)) <= i * bound,
    decreases i,
{
    if i > 0 {
        lemma_fold_sum_bound(s, n, k, i - 1, bound);
        assert(abs1(s[i - 1]) <= bound);
        assert(abs1(fold_term(s, n, k, i - 1)) <= bound);
        assert(fold_sum(s, n, k, i) == fold_sum(s, n, k, i - 1) + fold_term(s, n, k, i - 1));
        assert((i - 1) * bound + bound == i * bound) by (nonlinear_arith);
    } else {
        assert(i * bound == 0) by (nonlinear_arith)
            requires
                i == 0,
        ;
    }
}

} // verus!
