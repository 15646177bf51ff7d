//! Powers of two, and the shifts and masks of machine words as arithmetic
//! with them.

use vstd::arithmetic::power2::{
    lemma_pow2_adds, lemma_pow2_pos, lemma_pow2_strictly_increases, pow2,
};
use vstd::bits::{
    lemma_u32_pow2_no_overflow, lemma_u32_shl_is_mul, lemma_u64_low_bits_mask_is_mod,
    lemma_u64_pow2_no_overflow, lemma_u64_shl_is_mul, lemma_u64_shr_is_div,
};
use vstd::prelude::*;

verus! {

/// Shifting right by `k` drops the low `k` bits; masking with `2^k - 1`
/// keeps them.
pub proof fn lemma_u64_split(x: u64, k: u64)
    requires
        k < 64,
    ensures
        (x >> k) as nat == x as nat / pow2(k as nat),
        (1u64 << k) as nat == pow2(k as nat),
        (1u64 << k) >= 1,
        (x & (((1u64 << k) - 1) as u64)) as nat == x as nat % pow2(k as nat),
{
    lemma_u64_pow2_no_overflow(k as nat);
    lemma_pow2_pos(k as nat);
    lemma_u64_shr_is_div(x, k);
    lemma_u64_shl_is_mul(1, k);
    lemma_u64_low_bits_mask_is_mod(x, k as nat);
}

/// Shifting left by `k` multiplies by `2^k`, where the product fits.
pub proof fn lemma_u64_shl(x: u64, k: u64)
    requires
        k < 64,
        x * pow2(k as nat) <= u64::MAX,
    ensures
        (x << k) as nat == x * pow2(k as nat),
{
    lemma_u64_shl_is_mul(x, k);
}

/// Shifting left by `k` multiplies by `2^k`, where the product fits.
pub proof fn lemma_u32_shl(x: u32, k: u32)
    requires
        k < 32,
        x * pow2(k as nat) <= u32::MAX,
    ensures
        (x << k) as nat == x * pow2(k as nat),
{
    lemma_u32_pow2_no_overflow(k as nat);
    lemma_u32_shl_is_mul(x, k);
}

/// In a number below `2^(k+1)`, bit `k` is set exactly where the number is
/// at least `2^k`.
pub proof fn lemma_u64_top_bit(x: u64, k: u64)
    requires
        k < 63,
        (x as nat) < 2 * pow2(k as nat),
    ensures
        (x & (1u64 << k)) != 0 <==> x as nat >= pow2(k as nat),
{
    lemma_u64_split(x, k);
    let unit: u64 = 1u64 << k;
    assert((x & unit) != 0 <==> x >= unit) by (bit_vector)
        requires
            k < 63,
            unit == 1u64 << k,
            x < 2 * unit,
    ;
}

/// Powers of two rise with the exponent.
pub proof fn lemma_pow2_monotonic(a: nat, b: nat)
    requires
        a <= b,
    ensures
        pow2(a) <= pow2(b),
        pow2(a) > 0,
{
    lemma_pow2_pos(a);
    if a < b {
        lemma_pow2_strictly_increases(a, b);
    }
}

/// Scaling both sides of a bound by a power of two.
pub proof fn lemma_scale_bound(x: nat, a: nat, d: nat)
    ensures
        x <= pow2(a) ==> x * pow2(d) <= pow2(a + d),
        x < pow2(a) ==> x * pow2(d) < pow2(a + d),
        x >= pow2(a) ==> x * pow2(d) >= pow2(a + d),
{
    lemma_pow2_adds(a, d);
    lemma_pow2_pos(d);
    let p = pow2(a);
    let q = pow2(d);
    assert(x <= p ==> x * q <= p * q) by (nonlinear_arith)
        requires
            q > 0,
    ;
    assert(x < p ==> x * q < p * q) by (nonlinear_arith)
        requires
            q > 0,
    ;
    assert(x >= p ==> x * q >= p * q) by (nonlinear_arith)
        requires
            q > 0,
    ;
}

} // verus!
