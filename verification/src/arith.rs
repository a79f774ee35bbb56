//! Spec-level integer arithmetic: absolute value, division truncated toward
//! zero (the convention of arbitrary-precision `/` and `%`), and ceiling
//! base-two logarithms for bit budgets.

use vstd::prelude::*;

verus! {

use vstd::arithmetic::div_mod::lemma_fundamental_div_mod;
use vstd::arithmetic::div_mod::lemma_mod_bound;
use vstd::arithmetic::power2::pow2;

/// Absolute value of a mathematical integer.
pub open spec fn abs1(x: int) -> int {
    if x < 0 {
        -x
    } else {
        x
    }
}

/// Division truncated toward zero: the quotient convention of
/// arbitrary-precision `/` (and of Rust's primitive `/`).
pub open spec fn trunc_div(a: int, b: int) -> int {
    if (a < 0) == (b < 0) {
        abs1(a) / abs1(b)
    } else {
        -(abs1(a) / abs1(b))
    }
}

/// Remainder paired with `trunc_div`; it carries the sign of the dividend.
pub open spec fn trunc_rem(a: int, b: int) -> int {
    a - b * trunc_div(a, b)
}

/// The identity `a == b * q + r` for truncated division, with the remainder
/// bounded by the divisor and signed like the dividend.
pub proof fn lemma_trunc_div_mod(a: int, b: int)
    requires
        b != 0,
    ensures
        a == b * trunc_div(a, b) + trunc_rem(a, b),
        abs1(trunc_rem(a, b)) < abs1(b),
        a >= 0 ==> trunc_rem(a, b) >= 0,
        a <= 0 ==> trunc_rem(a, b) <= 0,
        a >= 0 && b > 0 ==> trunc_div(a, b) == a / b && trunc_rem(a, b) == a % b,
{
    let aa = abs1(a);
    let ab = abs1(b);
    let q = aa / ab;
    let r = aa % ab;
    lemma_fundamental_div_mod(aa, ab);
    lemma_mod_bound(aa, ab);
    assert(aa == ab * q + r);
    if a >= 0 && b >= 0 {
        assert(trunc_div(a, b) == q);
        assert(a - b * trunc_div(a, b) == r);
    } else if a >= 0 && b < 0 {
        assert(trunc_div(a, b) == -q);
        assert(b * (-q) == (-b) * q) by (nonlinear_arith);
        assert(a - b * trunc_div(a, b) == r);
    } else if a < 0 && b >= 0 {
        assert(trunc_div(a, b) == -q);
        assert(b * (-q) == -(b * q)) by (nonlinear_arith);
        assert(a - b * trunc_div(a, b) == -r);
    } else {
        assert(trunc_div(a, b) == q);
        assert(b * q == -((-b) * q)) by (nonlinear_arith);
        assert(a - b * trunc_div(a, b) == -r);
    }
}

/// Ceiling of the base-two logarithm: the least `k` with `pow2(k) >= x`
/// (zero for `x <= 1`).
pub open spec fn clog2(x: int) -> nat
    decreases x,
{
    if x <= 1 {
        0
    } else {
        1 + clog2(x / 2 + x % 2)
    }
}

/// Computes `clog2` of a machine integer by repeated ceiling halving.
pub fn clog2_u128(x: u128) -> (r: u64)
    ensures
        r == clog2(x as int),
        r <= 128,
{
    let mut cur: u128 = x;
    let mut k: u64 = 0;
    proof {
        lemma_clog2_le_128(x as int);
    }
    while cur > 1
        invariant
            k + clog2(cur as int) == clog2(x as int),
            clog2(x as int) <= 128,
        decreases cur,
    {
        proof {
            assert(clog2(cur as int) == 1 + clog2(cur as int / 2 + cur as int % 2));
        }
        cur = cur / 2 + cur % 2;
        k = k + 1;
    }
    k
}

/// `clog2` never exceeds 128 on a 128-bit value.
proof fn lemma_clog2_le_128(x: int)
    requires
        x <= u128::MAX,
    ensures
        clog2(x) <= 128,
{
    vstd::arithmetic::power2::lemma_pow2_adds(64, 64);
    vstd::arithmetic::power2::lemma2_to64();
    assert(pow2(128) == 0x10000000000000000 * 0x10000000000000000);
    lemma_clog2_bound(x, 128);
}

/// `clog2(x) <= e` whenever `x <= pow2(e)`.
proof fn lemma_clog2_bound(x: int, e: nat)
    requires
        x <= vstd::arithmetic::power2::pow2(e),
    ensures
        clog2(x) <= e,
    decreases e,
{
    vstd::arithmetic::power2::lemma_pow2_pos(e);
    if x <= 1 {
    } else {
        assert(e >= 1) by {
            if e == 0 {
                vstd::arithmetic::power2::lemma2_to64();
            }
        }
        assert(vstd::arithmetic::power2::pow2(e) == 2 * vstd::arithmetic::power2::pow2((e - 1) as nat)) by {
            vstd::arithmetic::power2::lemma_pow2_unfold(e);
        }
        lemma_clog2_bound(x / 2 + x % 2, (e - 1) as nat);
    }
}

} // verus!
