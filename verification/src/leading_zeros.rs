//! Software leading-zero counts.
//!
//! `usize_leading_zeros` is the branch-free bisection routine for targets
//! without a hardware count-leading-zeros instruction. `u128_leading_zeros`
//! builds the 128-bit count from the 64-bit hardware count, which the wide
//! division algorithms use to compare operand magnitudes.

use crate::bits::{
    lemma_div_bound_u, lemma_div_mul_le, lemma_div_zero_iff, lemma_lz_bounds_u64,
    lemma_pow2_above64,
};
use vstd::arithmetic::div_mod::*;
use vstd::arithmetic::power2::*;
use vstd::bits::*;
use vstd::prelude::*;

verus! {

/// Leading-zero count of a `u128`, characterized by power-of-two bounds.
pub fn u128_leading_zeros(x: u128) -> (r: u32)
    ensures
        r <= 128,
        (x == 0) <==> (r == 128),
        x != 0 ==> pow2((127 - r) as nat) <= x,
        x < pow2((128 - r) as nat),
{
    proof {
        lemma2_to64();
        lemma2_to64_rest();
        lemma_pow2_above64();
        lemma_div_bound_u(x as int, pow2(64) as int, pow2(64) as int);
        lemma_fundamental_div_mod(x as int, pow2(64) as int);
        lemma_mod_bound(x as int, pow2(64) as int);
    }
    let hi = (x / 0x10000000000000000) as u64;
    let lo = (x % 0x10000000000000000) as u64;
    if hi != 0 {
        let r = hi.leading_zeros();
        proof {
            lemma_lz_bounds_u64(hi);
            lemma_pow2_adds((63 - r) as nat, 64);
            lemma_pow2_adds((64 - r) as nat, 64);
            // pow2(63 - r) <= hi gives pow2(127 - r) <= hi * pow2(64) <= x
            assert(pow2((63 - r) as nat) * pow2(64) <= hi * pow2(64)) by (nonlinear_arith)
                requires
                    pow2((63 - r) as nat) <= hi,
                    pow2(64) > 0,
            ;
            // hi < pow2(64 - r) gives x < pow2(128 - r)
            assert(hi * pow2(64) + pow2(64) <= pow2((64 - r) as nat) * pow2(64)) by (nonlinear_arith)
                requires
                    hi + 1 <= pow2((64 - r) as nat),
                    pow2(64) > 0,
            ;
        }
        r
    } else {
        let r = lo.leading_zeros();
        proof {
            lemma_lz_bounds_u64(lo);
        }
        64 + r
    }
}

/// Returns the number of leading binary zeros in `x`.
///
/// Counting leading zeros is performance critical to certain division
/// algorithms and more. This is a fast software routine for computer
/// architectures without an assembly instruction to quickly calculate
/// `leading_zeros`: a branch-free bisection that narrows down the position of
/// the most significant set bit by conditional shifts.
#[verifier::rlimit(60)]
pub fn usize_leading_zeros(x: usize) -> (r: usize)
    ensures
        r <= usize::BITS,
        (x == 0) <==> (r == usize::BITS),
        x != 0 ==> pow2((usize::BITS - r - 1) as nat) <= x,
        x < pow2((usize::BITS - r) as nat),
{
    proof {
        lemma2_to64();
        lemma2_to64_rest();
    }
    // The bisection is carried out on 64 bits; on a narrower target the
    // missing high bits are zero and are subtracted back out at the end.
    let x0: u64 = x as u64;
    let mut v: u64 = x0;
    // The number of potential leading zeros within the 64-bit view.
    let mut z: u64 = 64;
    // Width discarded by the current step, either the tested level or zero.
    let mut t: u64;

    t = ((v >= 0x100000000) as u64) * 32;
    proof {
        lemma_u64_shr_is_div(v, t);
        lemma_div_basics(v as int);
        lemma_pow2_adds(32, 32);
        if t != 0 {
            lemma_div_bound_u(v as int, pow2(32) as int, pow2(32) as int);
            lemma_div_zero_iff(v as int, pow2(32) as int);
        }
    }
    v = v >> t;
    z = z - t;
    assert(v == x0 as int / pow2((64 - z) as nat) as int);
    assert(v < pow2(32));
    assert(x0 != 0 ==> v >= 1);

    t = ((v >= 0x10000) as u64) * 16;
    proof {
        lemma_u64_shr_is_div(v, t);
        lemma_div_basics(v as int);
        lemma_pow2_adds(16, 16);
        lemma_pow2_pos((64 - z) as nat);
        if t != 0 {
            lemma_div_bound_u(v as int, pow2(16) as int, pow2(16) as int);
            lemma_div_zero_iff(v as int, pow2(16) as int);
            lemma_div_denominator(x0 as int, pow2((64 - z) as nat) as int, pow2(16) as int);
            lemma_pow2_adds((64 - z) as nat, 16);
        }
    }
    v = v >> t;
    z = z - t;
    assert(v == x0 as int / pow2((64 - z) as nat) as int);
    assert(v < pow2(16));
    assert(x0 != 0 ==> v >= 1);

    t = ((v >= 0x100) as u64) * 8;
    proof {
        lemma_u64_shr_is_div(v, t);
        lemma_div_basics(v as int);
        lemma_pow2_adds(8, 8);
        lemma_pow2_pos((64 - z) as nat);
        if t != 0 {
            lemma_div_bound_u(v as int, pow2(8) as int, pow2(8) as int);
            lemma_div_zero_iff(v as int, pow2(8) as int);
            lemma_div_denominator(x0 as int, pow2((64 - z) as nat) as int, pow2(8) as int);
            lemma_pow2_adds((64 - z) as nat, 8);
        }
    }
    v = v >> t;
    z = z - t;
    assert(v == x0 as int / pow2((64 - z) as nat) as int);
    assert(v < pow2(8));
    assert(x0 != 0 ==> v >= 1);

    t = ((v >= 0x10) as u64) * 4;
    proof {
        lemma_u64_shr_is_div(v, t);
        lemma_div_basics(v as int);
        lemma_pow2_adds(4, 4);
        lemma_pow2_pos((64 - z) as nat);
        if t != 0 {
            lemma_div_bound_u(v as int, pow2(4) as int, pow2(4) as int);
            lemma_div_zero_iff(v as int, pow2(4) as int);
            lemma_div_denominator(x0 as int, pow2((64 - z) as nat) as int, pow2(4) as int);
            lemma_pow2_adds((64 - z) as nat, 4);
        }
    }
    v = v >> t;
    z = z - t;
    assert(v == x0 as int / pow2((64 - z) as nat) as int);
    assert(v < pow2(4));
    assert(x0 != 0 ==> v >= 1);

    t = ((v >= 0x4) as u64) * 2;
    proof {
        lemma_u64_shr_is_div(v, t);
        lemma_div_basics(v as int);
        lemma_pow2_adds(2, 2);
        lemma_pow2_pos((64 - z) as nat);
        if t != 0 {
            lemma_div_bound_u(v as int, pow2(2) as int, pow2(2) as int);
            lemma_div_zero_iff(v as int, pow2(2) as int);
            lemma_div_denominator(x0 as int, pow2((64 - z) as nat) as int, pow2(2) as int);
            lemma_pow2_adds((64 - z) as nat, 2);
        }
    }
    v = v >> t;
    z = z - t;
    assert(v == x0 as int / pow2((64 - z) as nat) as int);
    assert(v < pow2(2));
    assert(x0 != 0 ==> v >= 1);

    t = (v >= 0x2) as u64;
    proof {
        lemma_u64_shr_is_div(v, t);
        lemma_div_basics(v as int);
        lemma_pow2_adds(1, 1);
        lemma_pow2_pos((64 - z) as nat);
        if t != 0 {
            lemma_div_bound_u(v as int, pow2(1) as int, pow2(1) as int);
            lemma_div_zero_iff(v as int, pow2(1) as int);
            lemma_div_denominator(x0 as int, pow2((64 - z) as nat) as int, pow2(1) as int);
            lemma_pow2_adds((64 - z) as nat, 1);
        }
    }
    v = v >> t;
    z = z - t;
    assert(v == x0 as int / pow2((64 - z) as nat) as int);
    assert(v < pow2(1));
    assert(x0 != 0 ==> v == 1);

    // All bits except the lowest are gone; `v` is 1 exactly when `x` is
    // nonzero, and subtracting it yields the 64-bit leading-zero count.
    let r64 = z - v;
    proof {
        lemma_pow2_pos((64 - z) as nat);
        lemma_div_basics(pow2((64 - z) as nat) as int);
        vstd::layout::unsigned_int_max_values();
        if x0 != 0 {
            lemma_div_mul_le(x0 as int, pow2((64 - z) as nat) as int);
            lemma_pow2_adds((64 - z) as nat, 1);
            assert(pow2((64 - z) as nat) <= x0 < pow2((65 - z) as nat));
        }
        if usize::BITS == 32 {
            assert(x0 < pow2(32));
            // The value fits in 32 bits, so the count is at least 32.
            if x0 != 0 && z - v <= 31 {
                if 63 - (z - v) > 32 {
                    lemma_pow2_strictly_increases(32, (63 - (z - v)) as nat);
                }
                assert(false);
            }
        }
    }
    if usize::BITS == 32 {
        (r64 - 32) as usize
    } else {
        r64 as usize
    }
}

} // verus!
