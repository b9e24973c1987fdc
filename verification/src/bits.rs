//! Facts about powers of two, shifts, and leading-zero counts that the
//! division algorithms rely on.
//!
//! The central characterization is that a nonzero `N`-bit integer `x` with
//! `lz` leading zeros satisfies `pow2(N - lz - 1) <= x < pow2(N - lz)`; every
//! normalization and magnitude comparison in the division code reduces to
//! this pair of bounds.

use vstd::arithmetic::div_mod::*;
use vstd::arithmetic::mul::*;
use vstd::arithmetic::power2::*;
use vstd::bits::*;
use vstd::prelude::*;
use vstd::std_specs::bits::{
    axiom_u16_leading_zeros, axiom_u32_leading_zeros, axiom_u64_leading_zeros,
    axiom_u8_leading_zeros, u16_leading_zeros, u32_leading_zeros, u64_leading_zeros,
    u8_leading_zeros,
};

verus! {

/// Values of `pow2` above the 64-bit range that the 128-bit algorithms need.
pub proof fn lemma_pow2_above64()
    ensures
        pow2(96) == 0x1000000000000000000000000,
        pow2(127) == 0x80000000000000000000000000000000,
        pow2(128) == 0x100000000000000000000000000000000,
{
    lemma2_to64();
    lemma2_to64_rest();
    lemma_pow2_adds(64, 32);
    lemma_pow2_adds(64, 63);
    lemma_pow2_adds(64, 64);
}

/// `pow2(n)` fits in a `u128` for every exponent below the bit width.
pub proof fn lemma_pow2_no_overflow_u128(n: nat)
    requires
        n < 128,
    ensures
        0 < pow2(n) <= 0x80000000000000000000000000000000,
{
    lemma_pow2_pos(n);
    lemma_pow2_above64();
    if n < 127 {
        lemma_pow2_strictly_increases(n, 127);
    }
}

/// Shifting a `u128` left by `shift` multiplies it by `pow2(shift)`, as long
/// as the product stays in range.
pub proof fn lemma_shl_is_mul_u128(x: u128, shift: u128)
    requires
        shift < 128,
        x * pow2(shift as nat) <= u128::MAX,
    ensures
        x << shift == x * pow2(shift as nat),
    decreases shift,
{
    lemma_pow2_no_overflow_u128(shift as nat);
    if shift == 0 {
        assert(x << 0u128 == x) by (bit_vector);
        lemma2_to64();
    } else {
        let prev = (shift - 1) as u128;
        lemma_pow2_unfold(shift as nat);
        assert(x * pow2(prev as nat) * 2 == x * pow2(shift as nat)) by (nonlinear_arith)
            requires
                pow2(shift as nat) == 2 * pow2(prev as nat),
        ;
        assert(x * pow2(prev as nat) >= 0) by (nonlinear_arith)
            requires
                x >= 0,
                pow2(prev as nat) > 0,
        ;
        lemma_shl_is_mul_u128(x, prev);
        let y = x << prev;
        assert(x << shift == y << 1u128) by (bit_vector)
            requires
                y == x << prev,
                0 < shift < 128,
                prev == shift - 1,
        ;
        assert(y << 1u128 == y * 2) by (bit_vector)
            requires
                y < 0x80000000000000000000000000000000u128,
        ;
    }
}

/// A quotient is zero exactly when the dividend is below the divisor.
pub proof fn lemma_div_zero_iff(x: int, d: int)
    requires
        0 <= x,
        0 < d,
    ensures
        x / d == 0 <==> x < d,
{
    lemma_fundamental_div_mod(x, d);
    lemma_mod_bound(x, d);
    if x >= d {
        lemma_div_is_ordered(d, x, d);
        lemma_div_by_self(d);
    } else {
        lemma_basic_div(x, d);
    }
}

/// Multiplying a quotient back by the divisor stays at or below the dividend,
/// and overshoots it by less than one divisor.
pub proof fn lemma_div_mul_le(x: int, d: int)
    requires
        0 <= x,
        0 < d,
    ensures
        (x / d) * d <= x,
        x < (x / d + 1) * d,
{
    lemma_fundamental_div_mod(x, d);
    lemma_mod_bound(x, d);
    assert((x / d) * d == d * (x / d)) by (nonlinear_arith);
    assert((x / d + 1) * d == d * (x / d) + d) by (nonlinear_arith);
}

/// A dividend below `d * b` has a quotient below `b`.
pub proof fn lemma_div_bound_u(x: int, d: int, b: int)
    requires
        0 <= x,
        0 < d,
        0 < b,
        x < d * b,
    ensures
        x / d < b,
{
    lemma_fundamental_div_mod(x, d);
    lemma_mod_bound(x, d);
    assert(x / d >= b ==> d * (x / d) >= d * b) by (nonlinear_arith)
        requires
            0 < d,
    ;
}

/// A dividend at or above `d * b` has a quotient at or above `b`.
pub proof fn lemma_div_lower_u(x: int, d: int, b: int)
    requires
        0 < d,
        0 <= b,
        d * b <= x,
    ensures
        b <= x / d,
{
    lemma_fundamental_div_mod(x, d);
    lemma_mod_bound(x, d);
    assert(x / d < b ==> d * (x / d) <= d * (b - 1)) by (nonlinear_arith)
        requires
            0 < d,
    ;
    assert(d * (b - 1) == d * b - d) by (nonlinear_arith);
}

/// Bounds for the leading-zero count of a `u8`.
pub proof fn lemma_lz_bounds_u8(x: u8)
    ensures
        u8_leading_zeros(x) <= 8,
        (x == 0) <==> (u8_leading_zeros(x) == 8),
        x != 0 ==> pow2((7 - u8_leading_zeros(x)) as nat) <= x,
        x < pow2((8 - u8_leading_zeros(x)) as nat),
{
    axiom_u8_leading_zeros(x);
    let lz = u8_leading_zeros(x);
    lemma2_to64();
    if lz == 0 {
        assert(x < pow2(8));
    } else {
        lemma_u8_shr_is_div(x, (8 - lz) as u8);
        lemma_pow2_pos((8 - lz) as nat);
        lemma_div_zero_iff(x as int, pow2((8 - lz) as nat) as int);
    }
    if x != 0 {
        let low = x >> ((7 - lz) as u8);
        lemma_u8_shr_is_div(x, (7 - lz) as u8);
        assert(low & 1 == low % 2) by (bit_vector);
        lemma_pow2_pos((7 - lz) as nat);
        lemma_div_zero_iff(x as int, pow2((7 - lz) as nat) as int);
    }
}

/// Bounds for the leading-zero count of a `u16`.
pub proof fn lemma_lz_bounds_u16(x: u16)
    ensures
        u16_leading_zeros(x) <= 16,
        (x == 0) <==> (u16_leading_zeros(x) == 16),
        x != 0 ==> pow2((15 - u16_leading_zeros(x)) as nat) <= x,
        x < pow2((16 - u16_leading_zeros(x)) as nat),
{
    axiom_u16_leading_zeros(x);
    let lz = u16_leading_zeros(x);
    lemma2_to64();
    if lz == 0 {
        assert(x < pow2(16));
    } else {
        lemma_u16_shr_is_div(x, (16 - lz) as u16);
        lemma_pow2_pos((16 - lz) as nat);
        lemma_div_zero_iff(x as int, pow2((16 - lz) as nat) as int);
    }
    if x != 0 {
        let low = x >> ((15 - lz) as u16);
        lemma_u16_shr_is_div(x, (15 - lz) as u16);
        assert(low & 1 == low % 2) by (bit_vector);
        lemma_pow2_pos((15 - lz) as nat);
        lemma_div_zero_iff(x as int, pow2((15 - lz) as nat) as int);
    }
}

/// Bounds for the leading-zero count of a `u32`.
pub proof fn lemma_lz_bounds_u32(x: u32)
    ensures
        u32_leading_zeros(x) <= 32,
        (x == 0) <==> (u32_leading_zeros(x) == 32),
        x != 0 ==> pow2((31 - u32_leading_zeros(x)) as nat) <= x,
        x < pow2((32 - u32_leading_zeros(x)) as nat),
{
    axiom_u32_leading_zeros(x);
    let lz = u32_leading_zeros(x);
    lemma2_to64();
    if lz == 0 {
        assert(x < pow2(32));
    } else {
        lemma_u32_shr_is_div(x, (32 - lz) as u32);
        lemma_pow2_pos((32 - lz) as nat);
        lemma_div_zero_iff(x as int, pow2((32 - lz) as nat) as int);
    }
    if x != 0 {
        let low = x >> ((31 - lz) as u32);
        lemma_u32_shr_is_div(x, (31 - lz) as u32);
        assert(low & 1 == low % 2) by (bit_vector);
        lemma_pow2_pos((31 - lz) as nat);
        lemma_div_zero_iff(x as int, pow2((31 - lz) as nat) as int);
    }
}

/// Bounds for the leading-zero count of a `u64`.
pub proof fn lemma_lz_bounds_u64(x: u64)
    ensures
        0 <= u64_leading_zeros(x) <= 64,
        (x == 0) <==> (u64_leading_zeros(x) == 64),
        x != 0 ==> pow2((63 - u64_leading_zeros(x)) as nat) <= x,
        x < pow2((64 - u64_leading_zeros(x)) as nat),
{
    axiom_u64_leading_zeros(x);
    let lz = u64_leading_zeros(x);
    lemma2_to64();
    lemma2_to64_rest();
    if lz == 0 {
        assert(x < pow2(64));
    } else {
        lemma_u64_shr_is_div(x, (64 - lz) as u64);
        lemma_pow2_pos((64 - lz) as nat);
        lemma_div_zero_iff(x as int, pow2((64 - lz) as nat) as int);
    }
    if x != 0 {
        let low = x >> ((63 - lz) as u64);
        lemma_u64_shr_is_div(x, (63 - lz) as u64);
        assert(low & 1 == low % 2) by (bit_vector);
        lemma_pow2_pos((63 - lz) as nat);
        lemma_div_zero_iff(x as int, pow2((63 - lz) as nat) as int);
    }
}

} // verus!
