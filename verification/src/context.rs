//! Precomputed CRT parameters: selection of the minimal prime prefix whose
//! product reaches a required bit budget, the reconstruction constants, and
//! the Chinese-remainder combination itself.

use vstd::prelude::*;

verus! {

use vstd::arithmetic::power2::pow2;
use crate::arith::{clog2, clog2_u128, trunc_rem, lemma_trunc_div_mod};
use crate::bignum::{
    big_val,
    vals,
    bn_from_i64,
    bn_plus,
    bn_times,
    bn_div_trunc,
    bn_rem_trunc,
    bn_bits,
    bn_modinv,
};

/// Product of the first `k` entries of the prime table.
pub open spec fn prefix_prod(primes: Seq<u32>, k: int) -> int
    decreases k,
{
    if k <= 0 {
        1
    } else {
        prefix_prod(primes, k - 1) * primes[k - 1]
    }
}

/// Whether a positive value's bit length reaches `size`, that is, whether the
/// value is at least `2^(size - 1)`.
pub open spec fn has_bits(v: int, size: int) -> bool {
    size <= 0 || v >= pow2((size - 1) as nat)
}

/// The bit budget the selected product must reach:
/// `gamma + ceil(log2 l) + ceil(log2 (b · n))`.
pub open spec fn required_bits(gamma: u64, l: u64, b: u64, n_poly: u64) -> int {
    gamma + clog2(l as int) + clog2(b as int * n_poly as int)
}

/// `k` is the selected count: the first prefix whose product reaches the
/// budget.
pub open spec fn selection_ok(table: Seq<u32>, size: int, k: int) -> bool {
    &&& 0 <= k <= table.len()
    &&& has_bits(prefix_prod(table, k), size)
    &&& forall|j: int| 0 <= j < k ==> !has_bits(prefix_prod(table, j), size)
}

/// Entry `i` of a selected prefix of `k` table entries truly has no inverse
/// for its companion product: no candidate below the entry solves
/// `w · (M / table[i]) == 1 (mod table[i])`. For a table of distinct primes
/// this holds of no entry, so construction then never reports the inverse
/// error.
pub open spec fn companion_has_no_inverse(table: Seq<u32>, k: int, i: int) -> bool {
    forall|w: int|
        0 <= w < table[i] ==> #[trigger] ((w * (prefix_prod(table, k) / (table[i] as int))) % (
        table[i] as int)) != 1
}

/// Why a context could not be built.
#[derive(Debug, PartialEq, Eq, Structural)]
pub enum DcrtError {
    /// The supplied prime table cannot reach the required bit budget; carries
    /// that computed bit size as its diagnostic.
    InsufficientPrimes(u64),
    /// A selected entry had no modular inverse for its companion product, so
    /// the table was not a list of distinct primes.
    InverseUnavailable,
}

/// Precomputed parameters for the double-CRT representation, immutable after
/// construction.
pub struct DcrtContext {
    /// The selected primes, a prefix of the supplied table.
    pub primes: Vec<u32>,
    /// The product M of the selected primes.
    pub m: num_bigint::BigInt,
    /// `m_i[k] == M / primes[k]`.
    pub m_i: Vec<num_bigint::BigInt>,
    /// The modular inverse of `m_i[k]` modulo `primes[k]`.
    pub m_i_inv_mod_pi: Vec<num_bigint::BigInt>,
}

impl DcrtContext {
    /// The structural facts every built context provides: the stored product
    /// and the per-prime constants are exactly the CRT data of its primes.
    pub open spec fn wf(&self) -> bool {
        &&& self.m_i@.len() == self.primes@.len()
        &&& self.m_i_inv_mod_pi@.len() == self.primes@.len()
        &&& forall|i: int| 0 <= i < self.primes@.len() ==> self.primes@[i] >= 2
        &&& big_val(self.m) == prefix_prod(self.primes@, self.primes@.len() as int)
        &&& big_val(self.m) >= 1
        &&& forall|i: int|
            0 <= i < self.primes@.len() ==> big_val(self.m_i@[i]) == big_val(self.m) / (
            self.primes@[i] as int)
        &&& forall|i: int|
            0 <= i < self.primes@.len() ==> 0 <= #[trigger] big_val(self.m_i_inv_mod_pi@[i])
                < self.primes@[i]
        &&& forall|i: int|
            0 <= i < self.primes@.len() ==> (big_val(self.m_i_inv_mod_pi@[i]) * big_val(
                self.m_i@[i],
            )) % (self.primes@[i] as int) == 1
    }
}

/// Everything construction promises of a successfully built context: it is
/// well formed and its primes are the minimal prefix of the table whose
/// product reaches the budget.
pub open spec fn built_from(c: DcrtContext, table: Seq<u32>, size: int) -> bool {
    &&& c.wf()
    &&& c.primes@ == table.take(c.primes@.len() as int)
    &&& selection_ok(table, size, c.primes@.len() as int)
}

/// Whether construction failed for want of primes.
pub open spec fn is_budget_err(res: Result<DcrtContext, DcrtError>) -> bool {
    match res {
        Err(DcrtError::InsufficientPrimes(_)) => true,
        _ => false,
    }
}

/// A prefix product only reads the prefix.
proof fn lemma_prefix_prod_take(table: Seq<u32>, k: int)
    requires
        0 <= k <= table.len(),
    ensures
        prefix_prod(table.take(k), k) == prefix_prod(table, k),
    decreases k,
{
    if k > 0 {
        lemma_prefix_prod_take(table, k - 1);
        assert(table.take(k).take(k - 1) =~= table.take(k - 1));
        assert(prefix_prod(table.take(k - 1), k - 1) == prefix_prod(table.take(k), k - 1)) by {
            lemma_prefix_prod_equal_prefix(table.take(k - 1), table.take(k), k - 1);
        }
    }
}

/// Two tables that agree on a prefix have the same prefix product there.
proof fn lemma_prefix_prod_equal_prefix(s1: Seq<u32>, s2: Seq<u32>, k: int)
    requires
        0 <= k <= s1.len(),
        k <= s2.len(),
        forall|j: int| 0 <= j < k ==> s1[j] == s2[j],
    ensures
        prefix_prod(s1, k) == prefix_prod(s2, k),
    decreases k,
{
    if k > 0 {
        lemma_prefix_prod_equal_prefix(s1, s2, k - 1);
    }
}

/// A product of table entries at least 2 each is at least 1.
proof fn lemma_prefix_prod_pos(table: Seq<u32>, k: int)
    requires
        0 <= k <= table.len(),
        forall|j: int| 0 <= j < table.len() ==> table[j] >= 2,
    ensures
        prefix_prod(table, k) >= 1,
    decreases k,
{
    if k > 0 {
        lemma_prefix_prod_pos(table, k - 1);
        assert(prefix_prod(table, k - 1) * table[k - 1] >= 1) by (nonlinear_arith)
            requires
                prefix_prod(table, k - 1) >= 1,
                table[k - 1] >= 2,
        ;
    }
}

/// Whether the value's bit length reaches `size`; the bridge between the
/// executable bit count and `has_bits`.
fn bits_reach(v: &num_bigint::BigInt, size: u64) -> (r: bool)
    requires
        big_val(*v) >= 1,
    ensures
        r == has_bits(big_val(*v), size as int),
{
    let bits = bn_bits(v);
    proof {
        if size >= 1 {
            if bits >= size {
                assert(pow2((size - 1) as nat) <= pow2((bits - 1) as nat)) by {
                    if size < bits {
                        vstd::arithmetic::power2::lemma_pow2_strictly_increases(
                            (size - 1) as nat,
                            (bits - 1) as nat,
                        );
                    }
                }
            } else {
                assert(pow2(bits as nat) <= pow2((size - 1) as nat)) by {
                    if bits < size - 1 {
                        vstd::arithmetic::power2::lemma_pow2_strictly_increases(
                            bits as nat,
                            (size - 1) as nat,
                        );
                    }
                }
            }
        }
    }
    bits >= size
}

impl DcrtContext {
    /// Builds a context from a table of primes (each at least 2) and the
    /// security parameters: walks the table until the running product's bit
    /// length reaches `gamma + ceil(log2 l) + ceil(log2 (b · n))`, then
    /// precomputes each companion product and its inverse.
    ///
    /// Fails with the computed bit size when the whole table cannot reach the
    /// budget, and with `InverseUnavailable` when `modinv` finds no inverse,
    /// which cannot happen for distinct primes.
    pub fn new(primes: &Vec<u32>, gamma: u64, l: u64, b: u64, n_poly: u64) -> (res: Result<
        DcrtContext,
        DcrtError,
    >)
        requires
            l >= 1,
            b >= 2,
            n_poly >= 1,
            gamma <= u64::MAX - 256,
            forall|i: int| 0 <= i < primes@.len() ==> primes@[i] >= 2,
        ensures
            res matches Ok(c) ==> built_from(c, primes@, required_bits(gamma, l, b, n_poly)),
            res matches Err(DcrtError::InsufficientPrimes(req)) ==> req as int == required_bits(
                gamma,
                l,
                b,
                n_poly,
            ),
            is_budget_err(res) <==> (forall|j: int|
                0 <= j <= primes@.len() ==> !has_bits(
                    prefix_prod(primes@, j),
                    required_bits(gamma, l, b, n_poly),
                )),
            res matches Err(DcrtError::InverseUnavailable) ==> exists|k: int, i: int|
                selection_ok(primes@, required_bits(gamma, l, b, n_poly), k) && 0 <= i < k
                    && #[trigger] companion_has_no_inverse(primes@, k, i),
    {
        proof {
            vstd::arithmetic::mul::lemma_mul_upper_bound(
                b as int,
                u64::MAX as int,
                n_poly as int,
                u64::MAX as int,
            );
        }
        let bn_product: u128 = (b as u128) * (n_poly as u128);
        let size_bits: u64 = gamma + clog2_u128(l as u128) + clog2_u128(bn_product);
        let ghost size = required_bits(gamma, l, b, n_poly);
        proof {
            assert(size_bits as int == size);
        }
        let mut m = bn_from_i64(1);
        let mut count: usize = 0;
        let mut done = bits_reach(&m, size_bits);
        while count < primes.len() && !done
            invariant
                forall|i: int| 0 <= i < primes@.len() ==> primes@[i] >= 2,
                count <= primes@.len(),
                big_val(m) == prefix_prod(primes@, count as int),
                big_val(m) >= 1,
                done == has_bits(prefix_prod(primes@, count as int), size_bits as int),
                forall|j: int| 0 <= j < count ==> !has_bits(prefix_prod(primes@, j), size_bits as int),
            decreases primes@.len() - count,
        {
            let p_big = bn_from_i64(primes[count] as i64);
            m = bn_times(&m, &p_big);
            count = count + 1;
            proof {
                assert(prefix_prod(primes@, count as int) == prefix_prod(
                    primes@,
                    count - 1,
                ) * primes@[count - 1]);
                lemma_prefix_prod_pos(primes@, count as int);
            }
            done = bits_reach(&m, size_bits);
        }
        if !done {
            proof {
                assert(count == primes@.len());
            }
            return Err(DcrtError::InsufficientPrimes(size_bits));
        }
        let mut selected: Vec<u32> = Vec::new();
        let mut t: usize = 0;
        while t < count
            invariant
                count <= primes@.len(),
                t <= count,
                selected@.len() == t,
                forall|j: int| 0 <= j < t ==> selected@[j] == primes@[j],
            decreases count - t,
        {
            selected.push(primes[t]);
            t = t + 1;
        }
        proof {
            assert(selected@ =~= primes@.take(count as int));
        }
        let mut m_i: Vec<num_bigint::BigInt> = Vec::new();
        let mut m_i_inv_mod_pi: Vec<num_bigint::BigInt> = Vec::new();
        let mut i: usize = 0;
        while i < count
            invariant
                forall|j: int| 0 <= j < primes@.len() ==> primes@[j] >= 2,
                count <= primes@.len(),
                i <= count,
                big_val(m) >= 1,
                big_val(m) == prefix_prod(primes@, count as int),
                size_bits as int == required_bits(gamma, l, b, n_poly),
                has_bits(prefix_prod(primes@, count as int), size_bits as int),
                forall|j: int| 0 <= j < count ==> !has_bits(prefix_prod(primes@, j), size_bits as int),
                m_i@.len() == i,
                m_i_inv_mod_pi@.len() == i,
                forall|j: int|
                    0 <= j < i ==> big_val(m_i@[j]) == big_val(m) / (primes@[j] as int),
                forall|j: int|
                    0 <= j < i ==> 0 <= #[trigger] big_val(m_i_inv_mod_pi@[j]) < primes@[j],
                forall|j: int|
                    0 <= j < i ==> (big_val(m_i_inv_mod_pi@[j]) * big_val(m_i@[j])) % (
                    primes@[j] as int) == 1,
            decreases count - i,
        {
            let p_big = bn_from_i64(primes[i] as i64);
            let mi = bn_div_trunc(&m, &p_big);
            proof {
                lemma_trunc_div_mod(big_val(m), primes@[i as int] as int);
            }
            match bn_modinv(&mi, &p_big) {
                Some(inv) => {
                    m_i.push(mi);
                    m_i_inv_mod_pi.push(inv);
                },
                None => {
                    proof {
                        let size = required_bits(gamma, l, b, n_poly);
                        let k = count as int;
                        assert(selection_ok(primes@, size, k));
                        let p = primes@[i as int] as int;
                        assert(big_val(mi) == prefix_prod(primes@, k) / p);
                        assert forall|w: int| 0 <= w < primes@[i as int] implies #[trigger] ((w
                            * (prefix_prod(primes@, k) / p)) % p) != 1 by {
                            assert((w * big_val(mi)) % big_val(p_big) != 1);
                        }
                        assert(companion_has_no_inverse(primes@, k, i as int));
                    }
                    return Err(DcrtError::InverseUnavailable);
                },
            }
            i = i + 1;
        }
        let ctx = DcrtContext { primes: selected, m, m_i, m_i_inv_mod_pi };
        proof {
            lemma_prefix_prod_take(primes@, count as int);
            lemma_prefix_prod_equal_prefix(ctx.primes@, primes@, count as int);
            assert(ctx.wf());
            assert(built_from(ctx, primes@, size));
        }
        Ok(ctx)
    }
}

/// Partial CRT combination: Σ over the first `i` indices of
/// `congruence · companion · inverse`.
pub open spec fn crt_sum(congs: Seq<int>, m_i: Seq<int>, inv: Seq<int>, i: int) -> int
    decreases i,
{
    if i <= 0 {
        0
    } else {
        crt_sum(congs, m_i, inv, i - 1) + congs[i - 1] * m_i[i - 1] * inv[i - 1]
    }
}

/// Reconstitutes a coefficient from its congruences by the Chinese remainder
/// theorem: `Σ a_i · m_i · (m_i⁻¹ mod p_i)`, reduced modulo M with the
/// truncated remainder.
pub fn crt(congruences: &Vec<num_bigint::BigInt>, context: &DcrtContext) -> (r: num_bigint::BigInt)
    requires
        context.wf(),
        congruences@.len() == context.primes@.len(),
    ensures
        big_val(r) == trunc_rem(
            crt_sum(
                vals(congruences@),
                vals(context.m_i@),
                vals(context.m_i_inv_mod_pi@),
                congruences@.len() as int,
            ),
            big_val(context.m),
        ),
{
    let mut solution = bn_from_i64(0);
    let mut i: usize = 0;
    while i < congruences.len()
        invariant
            context.wf(),
            congruences@.len() == context.primes@.len(),
            i <= congruences@.len(),
            big_val(solution) == crt_sum(
                vals(congruences@),
                vals(context.m_i@),
                vals(context.m_i_inv_mod_pi@),
                i as int,
            ),
        decreases congruences@.len() - i,
    {
        let term = bn_times(
            &bn_times(&congruences[i], &context.m_i[i]),
            &context.m_i_inv_mod_pi[i],
        );
        solution = bn_plus(&solution, &term);
        i = i + 1;
    }
    bn_rem_trunc(&solution, &context.m)
}

/// Product of the table entries with index in `[lo, hi)`.
pub open spec fn range_prod(primes: Seq<u32>, lo: int, hi: int) -> int
    decreases hi - lo,
{
    if hi <= lo {
        1
    } else {
        range_prod(primes, lo, hi - 1) * primes[hi - 1]
    }
}

/// A prefix product is the range product from zero.
proof fn lemma_prefix_is_range(primes: Seq<u32>, k: int)
    ensures
        prefix_prod(primes, k) == range_prod(primes, 0, k),
    decreases k,
{
    if k > 0 {
        lemma_prefix_is_range(primes, k - 1);
    }
}

/// A range product splits at any point in between.
proof fn lemma_range_prod_split(primes: Seq<u32>, lo: int, mid: int, hi: int)
    requires
        lo <= mid <= hi,
    ensures
        range_prod(primes, lo, hi) == range_prod(primes, lo, mid) * range_prod(primes, mid, hi),
    decreases hi - mid,
{
    if hi == mid {
        assert(range_prod(primes, mid, hi) == 1);
    } else {
        lemma_range_prod_split(primes, lo, mid, hi - 1);
        assert((range_prod(primes, lo, mid) * range_prod(primes, mid, hi - 1)) * primes[hi - 1]
            == range_prod(primes, lo, mid) * (range_prod(primes, mid, hi - 1) * primes[hi
            - 1])) by (nonlinear_arith);
    }
}

/// A range product of entries at least one each is at least one.
proof fn lemma_range_prod_pos(primes: Seq<u32>, lo: int, hi: int)
    requires
        0 <= lo,
        hi <= primes.len(),
        forall|j: int| 0 <= j < primes.len() ==> primes[j] >= 1,
    ensures
        range_prod(primes, lo, hi) >= 1,
    decreases hi - lo,
{
    if hi > lo {
        lemma_range_prod_pos(primes, lo, hi - 1);
        assert(range_prod(primes, lo, hi - 1) * primes[hi - 1] >= 1) by (nonlinear_arith)
            requires
                range_prod(primes, lo, hi - 1) >= 1,
                primes[hi - 1] >= 1,
        ;
    }
}

/// The product of all entries but one: the entries below it times the
/// entries above it.
pub open spec fn prod_except(primes: Seq<u32>, i: int) -> int {
    range_prod(primes, 0, i) * range_prod(primes, i + 1, primes.len() as int)
}

/// The whole product factors through any one entry: the full product is
/// `prod_except(i) * primes[i]`, so the stored companion `M / primes[i]` is
/// exactly the product of the other entries.
pub(crate) proof fn lemma_prod_except(primes: Seq<u32>, i: int)
    requires
        0 <= i < primes.len(),
        forall|j: int| 0 <= j < primes.len() ==> primes[j] >= 1,
    ensures
        prefix_prod(primes, primes.len() as int) == prod_except(primes, i) * primes[i],
        prefix_prod(primes, primes.len() as int) / (primes[i] as int) == prod_except(primes, i),
        prod_except(primes, i) >= 1,
{
    let n = primes.len() as int;
    lemma_prefix_is_range(primes, n);
    lemma_range_prod_split(primes, 0, i, n);
    lemma_range_prod_split(primes, i, i + 1, n);
    assert(range_prod(primes, i, i) == 1);
    assert(range_prod(primes, i, i + 1) == primes[i]);
    assert(range_prod(primes, 0, i) * ((primes[i] as int) * range_prod(primes, i + 1, n)) == (
    range_prod(primes, 0, i) * range_prod(primes, i + 1, n)) * primes[i]) by (nonlinear_arith);
    lemma_range_prod_pos(primes, 0, i);
    lemma_range_prod_pos(primes, i + 1, n);
    assert(prod_except(primes, i) >= 1) by (nonlinear_arith)
        requires
            range_prod(primes, 0, i) >= 1,
            range_prod(primes, i + 1, n) >= 1,
            prod_except(primes, i) == range_prod(primes, 0, i) * range_prod(primes, i + 1, n),
    ;
    vstd::arithmetic::div_mod::lemma_div_multiples_vanish(
        prod_except(primes, i),
        primes[i] as int,
    );
    assert((primes[i] as int) * prod_except(primes, i) == prod_except(primes, i) * primes[i])
        by (nonlinear_arith);
}

/// Every other entry divides the companion product `prod_except(i)`.
pub(crate) proof fn lemma_prod_except_divisible(primes: Seq<u32>, i: int, j: int)
    requires
        0 <= i < primes.len(),
        0 <= j < primes.len(),
        j != i,
        forall|t: int| 0 <= t < primes.len() ==> primes[t] >= 1,
    ensures
        prod_except(primes, i) % (primes[j] as int) == 0,
{
    let n = primes.len() as int;
    let p = primes[j] as int;
    if j < i {
        lemma_range_prod_split(primes, 0, j, i);
        lemma_range_prod_split(primes, j, j + 1, i);
        assert(range_prod(primes, j, j) == 1);
        assert(range_prod(primes, j, j + 1) == primes[j]);
        // range_prod(0, i) == (range_prod(0, j) * range_prod(j + 1, i)) * p.
        assert(prod_except(primes, i) == ((range_prod(primes, 0, j) * range_prod(
            primes,
            j + 1,
            i,
        )) * range_prod(primes, i + 1, n)) * p) by (nonlinear_arith)
            requires
                prod_except(primes, i) == range_prod(primes, 0, i) * range_prod(primes, i + 1, n),
                range_prod(primes, 0, i) == range_prod(primes, 0, j) * (p * range_prod(
                    primes,
                    j + 1,
                    i,
                )),
        ;
        vstd::arithmetic::div_mod::lemma_mod_multiples_basic(
            (range_prod(primes, 0, j) * range_prod(primes, j + 1, i)) * range_prod(
                primes,
                i + 1,
                n,
            ),
            p,
        );
    } else {
        lemma_range_prod_split(primes, i + 1, j, n);
        lemma_range_prod_split(primes, j, j + 1, n);
        assert(range_prod(primes, j, j) == 1);
        assert(range_prod(primes, j, j + 1) == primes[j]);
        assert(prod_except(primes, i) == ((range_prod(primes, 0, i) * range_prod(
            primes,
            i + 1,
            j,
        )) * range_prod(primes, j + 1, n)) * p) by (nonlinear_arith)
            requires
                prod_except(primes, i) == range_prod(primes, 0, i) * range_prod(primes, i + 1, n),
                range_prod(primes, i + 1, n) == range_prod(primes, i + 1, j) * (p * range_prod(
                    primes,
                    j + 1,
                    n,
                )),
        ;
        vstd::arithmetic::div_mod::lemma_mod_multiples_basic(
            (range_prod(primes, 0, i) * range_prod(primes, i + 1, j)) * range_prod(
                primes,
                j + 1,
                n,
            ),
            p,
        );
    }
}

/// A CRT combination of non-negative parts is non-negative.
pub(crate) proof fn lemma_crt_sum_nonneg(congs: Seq<int>, mi: Seq<int>, inv: Seq<int>, i: int)
    requires
        i <= congs.len(),
        i <= mi.len(),
        i <= inv.len(),
        forall|t: int| 0 <= t < i ==> congs[t] >= 0,
        forall|t: int| 0 <= t < i ==> mi[t] >= 0,
        forall|t: int| 0 <= t < i ==> inv[t] >= 0,
    ensures
        crt_sum(congs, mi, inv, i) >= 0,
    decreases i,
{
    if i > 0 {
        lemma_crt_sum_nonneg(congs, mi, inv, i - 1);
        assert(congs[i - 1] * mi[i - 1] * inv[i - 1] >= 0) by (nonlinear_arith)
            requires
                congs[i - 1] >= 0,
                mi[i - 1] >= 0,
                inv[i - 1] >= 0,
        ;
    }
}

/// Modulo one prime, the CRT combination collapses to the term of that
/// prime's index, since every other companion product vanishes.
pub(crate) proof fn lemma_crt_sum_mod_vanish(
    congs: Seq<int>,
    mi: Seq<int>,
    inv: Seq<int>,
    p: int,
    j: int,
    i: int,
)
    requires
        p >= 2,
        0 <= j,
        i <= congs.len(),
        i <= mi.len(),
        i <= inv.len(),
        forall|t: int| 0 <= t < i && t != j ==> mi[t] % p == 0,
    ensures
        j < i ==> crt_sum(congs, mi, inv, i) % p == (congs[j] * mi[j] * inv[j]) % p,
        i <= j ==> crt_sum(congs, mi, inv, i) % p == 0,
    decreases i,
{
    if i > 0 {
        lemma_crt_sum_mod_vanish(congs, mi, inv, p, j, i - 1);
        let prev = crt_sum(congs, mi, inv, i - 1);
        let term = congs[i - 1] * mi[i - 1] * inv[i - 1];
        vstd::arithmetic::div_mod::lemma_add_mod_noop(prev, term, p);
        vstd::arithmetic::div_mod::lemma_mod_twice(term, p);
        vstd::arithmetic::div_mod::lemma_mod_twice(prev, p);
        if i - 1 != j {
            assert(term == mi[i - 1] * (congs[i - 1] * inv[i - 1])) by (nonlinear_arith)
                requires
                    term == congs[i - 1] * mi[i - 1] * inv[i - 1],
            ;
            vstd::arithmetic::div_mod::lemma_mul_mod_noop_left(
                mi[i - 1],
                congs[i - 1] * inv[i - 1],
                p,
            );
            assert(term % p == 0);
        }
    } else {
        assert(0int % p == 0);
    }
}

/// Explicit-certificate divisibility: when `a` has an inverse modulo `p`,
/// anything both `a` and `p` divide is divided by their product.
proof fn lemma_coprime_divide(x: int, a: int, p: int, w: int)
    requires
        a >= 1,
        p >= 2,
        x % a == 0,
        x % p == 0,
        (w * a) % p == 1,
    ensures
        x % (a * p) == 0,
{
    vstd::arithmetic::div_mod::lemma_fundamental_div_mod(x, a);
    let s = x / a;
    assert(x == a * s);
    vstd::arithmetic::div_mod::lemma_mul_mod_noop_right(s, w * a, p);
    assert(s * (w * a) == x * w) by (nonlinear_arith)
        requires
            x == a * s,
    ;
    vstd::arithmetic::div_mod::lemma_mul_mod_noop_left(x, w, p);
    assert((x % p) * w == 0) by (nonlinear_arith)
        requires
            x % p == 0,
    ;
    assert(0int % p == 0);
    assert((x * w) % p == 0);
    assert(s % p == 0);
    vstd::arithmetic::div_mod::lemma_fundamental_div_mod(s, p);
    let t = s / p;
    assert(s == p * t);
    assert(a * p >= 2) by (nonlinear_arith)
        requires
            a >= 1,
            p >= 2,
    ;
    vstd::arithmetic::div_mod::lemma_mod_multiples_basic(t, a * p);
    assert(x == t * (a * p)) by (nonlinear_arith)
        requires
            x == a * s,
            s == p * t,
    ;
}

/// Anything every selected prime divides, their whole product divides: the
/// stored inverse of each companion product certifies that each prime is
/// coprime to the product of the ones before it.
pub(crate) proof fn lemma_primes_divide_product(x: int, ctx: DcrtContext, k: int)
    requires
        ctx.wf(),
        0 <= k <= ctx.primes@.len(),
        forall|j: int| 0 <= j < ctx.primes@.len() ==> x % (ctx.primes@[j] as int) == 0,
    ensures
        x % prefix_prod(ctx.primes@, k) == 0,
    decreases k,
{
    let s = ctx.primes@;
    let n = s.len() as int;
    if k == 0 {
        vstd::arithmetic::div_mod::lemma_mod_multiples_basic(x, 1);
        assert(x * 1 == x) by (nonlinear_arith);
    } else {
        lemma_primes_divide_product(x, ctx, k - 1);
        let a = prefix_prod(s, k - 1);
        let p = s[k - 1] as int;
        lemma_prefix_prod_pos(s, k - 1);
        let inv = big_val(ctx.m_i_inv_mod_pi@[k - 1]);
        let q = range_prod(s, k, n);
        lemma_prod_except(s, k - 1);
        lemma_prefix_is_range(s, k - 1);
        assert(big_val(ctx.m_i@[k - 1]) == prod_except(s, k - 1));
        assert(prod_except(s, k - 1) == a * q);
        assert((inv * q) * a == inv * (a * q)) by (nonlinear_arith);
        assert(((inv * q) * a) % p == 1);
        lemma_coprime_divide(x, a, p, inv * q);
        assert(prefix_prod(s, k) == a * p);
    }
}

/// Uniqueness of the modular inverse: two inverses of `a` in `[0, p)` agree.
proof fn lemma_inv_unique(x: int, y: int, a: int, p: int)
    requires
        p >= 2,
        0 <= x < p,
        0 <= y < p,
        (x * a) % p == 1,
        (y * a) % p == 1,
    ensures
        x == y,
{
    vstd::arithmetic::div_mod::lemma_small_mod(x as nat, p as nat);
    vstd::arithmetic::div_mod::lemma_small_mod(y as nat, p as nat);
    vstd::arithmetic::div_mod::lemma_small_mod(1nat, p as nat);
    vstd::arithmetic::div_mod::lemma_mul_mod_noop_right(x, y * a, p);
    vstd::arithmetic::div_mod::lemma_mul_mod_noop_right(y, x * a, p);
    assert(x * (y * a) == y * (x * a)) by (nonlinear_arith);
    assert(x % p == (x * ((y * a) % p)) % p) by {
        assert(x * 1 == x);
    }
    assert(y % p == (y * ((x * a) % p)) % p) by {
        assert(y * 1 == y);
    }
}

/// Context construction is deterministic: any two well-formed contexts built
/// from the same table and budget hold the same prime prefix, the same
/// product, and the same companions and inverses.
pub proof fn lemma_context_deterministic(
    c1: DcrtContext,
    c2: DcrtContext,
    table: Seq<u32>,
    size: int,
)
    requires
        built_from(c1, table, size),
        built_from(c2, table, size),
    ensures
        c1.primes@ == c2.primes@,
        big_val(c1.m) == big_val(c2.m),
        vals(c1.m_i@) == vals(c2.m_i@),
        vals(c1.m_i_inv_mod_pi@) == vals(c2.m_i_inv_mod_pi@),
{
    let k1 = c1.primes@.len() as int;
    let k2 = c2.primes@.len() as int;
    if k1 < k2 {
        assert(!has_bits(prefix_prod(table, k1), size));
        assert(false);
    }
    if k2 < k1 {
        assert(!has_bits(prefix_prod(table, k2), size));
        assert(false);
    }
    assert(c1.primes@ =~= c2.primes@);
    assert(big_val(c1.m) == big_val(c2.m)) by {
        lemma_prefix_prod_equal_prefix(c1.primes@, c2.primes@, k1);
    }
    assert forall|i: int| 0 <= i < k1 implies vals(c1.m_i@)[i] == vals(c2.m_i@)[i] by {
        assert(big_val(c1.m_i@[i]) == big_val(c1.m) / (c1.primes@[i] as int));
    }
    assert(vals(c1.m_i@) =~= vals(c2.m_i@));
    assert forall|i: int| 0 <= i < k1 implies vals(c1.m_i_inv_mod_pi@)[i] == vals(
        c2.m_i_inv_mod_pi@,
    )[i] by {
        lemma_inv_unique(
            big_val(c1.m_i_inv_mod_pi@[i]),
            big_val(c2.m_i_inv_mod_pi@[i]),
            big_val(c1.m_i@[i]),
            c1.primes@[i] as int,
        );
    }
    assert(vals(c1.m_i_inv_mod_pi@) =~= vals(c2.m_i_inv_mod_pi@));
}

/// A context that was actually built refutes every missing-inverse witness
/// for its table and budget: its stored inverses are the counterexamples.
/// Together with `lemma_context_deterministic`, this pins the whole outcome
/// of construction — identical inputs cannot yield a context once and the
/// missing-inverse error another time.
pub proof fn lemma_built_context_has_inverses(
    c: DcrtContext,
    table: Seq<u32>,
    size: int,
    k: int,
    i: int,
)
    requires
        built_from(c, table, size),
        selection_ok(table, size, k),
        0 <= i < k,
    ensures
        !companion_has_no_inverse(table, k, i),
{
    let k1 = c.primes@.len() as int;
    if k1 < k {
        assert(!has_bits(prefix_prod(table, k1), size));
        assert(false);
    }
    if k < k1 {
        assert(!has_bits(prefix_prod(table, k), size));
        assert(false);
    }
    let p = table[i] as int;
    assert(c.primes@[i] == table[i]);
    lemma_prefix_prod_take(table, k);
    assert(big_val(c.m) == prefix_prod(table, k));
    let inv = big_val(c.m_i_inv_mod_pi@[i]);
    assert(0 <= inv < p);
    assert(big_val(c.m_i@[i]) == prefix_prod(table, k) / p);
    assert((inv * (prefix_prod(table, k) / p)) % p == 1);
}

} // verus!
