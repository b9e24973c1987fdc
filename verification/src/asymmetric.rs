//! The asymmetric algorithm: builds a full double-width division out of a
//! hardware-style division of a double-width dividend by a single-width
//! divisor. Narrow divisors use that primitive directly or through short
//! division; wide divisors are truncated to their top half, and the
//! estimate from dividing by that truncation is corrected by at most one.

use crate::bits::{
    lemma_div_bound_u, lemma_div_lower_u, lemma_div_mul_le, lemma_div_zero_iff,
    lemma_lz_bounds_u32, lemma_lz_bounds_u64, lemma_pow2_above64, lemma_shl_is_mul_u128,
};
use crate::implement::{
    u128_by_u64_div_rem, u32_by_u32_div_rem, u64_by_u32_div_rem, u64_by_u64_div_rem,
};
use crate::signed::{
    div_trunc, i128_apply_signs, i128_magnitudes, i64_apply_signs, i64_magnitudes, rem_trunc,
};
use crate::theory::{lemma_estimate_hypothesis, lemma_estimate_quotient, lemma_short_division};
use crate::trifecta::{u128_mul_or_mul_minus_one, u64_mul_or_mul_minus_one};
use vstd::arithmetic::div_mod::*;
use vstd::arithmetic::mul::*;
use vstd::arithmetic::power2::*;
use vstd::bits::*;
use vstd::prelude::*;

verus! {

/// Computes the quotient and remainder of `duo` divided by `div` and
/// returns them as a tuple.
///
/// This is optimized for dividing integers with the same bit width as the
/// largest operand in an asymmetrically sized division, such as dividing a
/// 128 bit integer by a 64 bit integer when the quotient fits in 64 bits.
#[verifier::loop_isolation(false)]
#[verifier::rlimit(100)]
pub fn u128_div_rem_asymmetric(duo: u128, div: u128) -> (r: (u128, u128))
    requires
        div != 0,
    ensures
        r.0 == duo as int / div as int,
        r.1 == duo as int % div as int,
{
    proof {
        lemma2_to64();
        lemma2_to64_rest();
        lemma_pow2_above64();
        lemma_fundamental_div_mod(duo as int, pow2(64) as int);
        lemma_mod_bound(duo as int, pow2(64) as int);
        lemma_div_bound_u(duo as int, pow2(64) as int, pow2(64) as int);
        lemma_fundamental_div_mod(div as int, pow2(64) as int);
        lemma_mod_bound(div as int, pow2(64) as int);
        lemma_div_bound_u(div as int, pow2(64) as int, pow2(64) as int);
        lemma_pow2_adds(64, 64);
    }
    let duo_lo = (duo % 0x10000000000000000) as u64;
    let duo_hi = (duo / 0x10000000000000000) as u64;
    let div_lo = (div % 0x10000000000000000) as u64;
    let div_hi = (div / 0x10000000000000000) as u64;
    if div_hi == 0 {
        if duo_hi < div_lo {
            // the quotient fits the asymmetric primitive directly
            proof {
                assert((duo_hi + 1) * pow2(64) <= div_lo * pow2(64)) by (nonlinear_arith)
                    requires
                        duo_hi + 1 <= div_lo,
                        0 < pow2(64),
                ;
            }
            let t = u128_by_u64_div_rem(duo, div_lo);
            return (t.0 as u128, t.1 as u128);
        } else if div_lo < 0x100000000 {
            // short division of the dividend's three limbs by the
            // quarter-sized divisor, carrying remainders downward
            proof {
                lemma_mod_breakdown(duo as int, 0x100000000, 0x100000000);
                lemma_mod_bound(duo as int, 0x100000000);
                lemma_mod_bound((duo as int / 0x100000000) as int, 0x100000000);
            }
            let div_0 = div as u64;
            let t3 = u64_by_u64_div_rem(duo_hi, div_0);
            proof {
                lemma_fundamental_div_mod(duo_hi as int, div_0 as int);
                lemma_mod_bound(duo_hi as int, div_0 as int);
            }
            let duo_mid = ((duo / 0x100000000) % 0x100000000) as u64 + t3.1 * 0x100000000;
            let t2 = u64_by_u64_div_rem(duo_mid, div_0);
            proof {
                lemma_fundamental_div_mod(duo_mid as int, div_0 as int);
                lemma_mod_bound(duo_mid as int, div_0 as int);
            }
            let duo_low = (duo % 0x100000000) as u64 + t2.1 * 0x100000000;
            let t1 = u64_by_u64_div_rem(duo_low, div_0);
            proof {
                lemma_fundamental_div_mod(duo_low as int, div_0 as int);
                lemma_mod_bound(duo_low as int, div_0 as int);
                lemma_short_division(
                    duo_hi as int,
                    (duo as int / 0x100000000) % 0x100000000,
                    duo as int % 0x100000000,
                    div_0 as int,
                    0x100000000,
                    t3.0 as int,
                    t3.1 as int,
                    t2.0 as int,
                    t2.1 as int,
                    t1.0 as int,
                    t1.1 as int,
                );
                lemma_div_nonincreasing(duo_hi as int, div_0 as int);
                lemma_fundamental_div_mod_converse(
                    duo as int,
                    div as int,
                    ((t3.0 as int * 0x100000000) + t2.0 as int) * 0x100000000 + t1.0 as int,
                    t1.1 as int,
                );
            }
            return (
                (t1.0 as u128) + (t2.0 as u128) * 0x100000000 + (t3.0 as u128)
                    * 0x10000000000000000,
                t1.1 as u128,
            );
        } else {
            // divide the high half first, then finish with the primitive
            let t_hi = u64_by_u64_div_rem(duo_hi, div_lo);
            proof {
                lemma_fundamental_div_mod(duo_hi as int, div_lo as int);
                lemma_mod_bound(duo_hi as int, div_lo as int);
                assert((t_hi.1 + 1) * pow2(64) <= div_lo * pow2(64)) by (nonlinear_arith)
                    requires
                        t_hi.1 + 1 <= div_lo,
                        0 < pow2(64),
                ;
            }
            let next = (duo_lo as u128) + (t_hi.1 as u128) * 0x10000000000000000;
            let t = u128_by_u64_div_rem(next, div_lo);
            proof {
                lemma_fundamental_div_mod(next as int, div_lo as int);
                lemma_mod_bound(next as int, div_lo as int);
                lemma_div_nonincreasing(duo_hi as int, div_lo as int);
                // duo == div * (quo_hi * 2^64 + t.0) + t.1
                assert(div_lo * (t_hi.0 * pow2(64) + t.0) == (div_lo * t_hi.0) * pow2(64)
                    + div_lo * t.0) by (nonlinear_arith);
                assert((div_lo * t_hi.0) * pow2(64) + t_hi.1 * pow2(64) == (div_lo * t_hi.0
                    + t_hi.1) * pow2(64)) by (nonlinear_arith);
                assert((t_hi.0 * pow2(64) + t.0) * div_lo == div_lo * (t_hi.0 * pow2(64) + t.0))
                    by (nonlinear_arith);
                lemma_fundamental_div_mod_converse(
                    duo as int,
                    div as int,
                    t_hi.0 * pow2(64) + t.0,
                    t.1 as int,
                );
            }
            return ((t.0 as u128) + (t_hi.0 as u128) * 0x10000000000000000, t.1 as u128);
        }
    }
    let duo_lz = duo_hi.leading_zeros();
    let div_lz = div_hi.leading_zeros();
    proof {
        lemma_lz_bounds_u64(duo_hi);
        lemma_lz_bounds_u64(div_hi);
        // full-width ranges from the high halves
        lemma_pow2_adds((63 - div_lz) as nat, 64);
        lemma_pow2_adds((64 - div_lz) as nat, 64);
        assert(pow2((63 - div_lz) as nat) * pow2(64) <= div_hi * pow2(64)) by (nonlinear_arith)
            requires
                pow2((63 - div_lz) as nat) <= div_hi,
                0 < pow2(64),
        ;
        assert(div_hi * pow2(64) + pow2(64) <= pow2((64 - div_lz) as nat) * pow2(64))
            by (nonlinear_arith)
            requires
                div_hi + 1 <= pow2((64 - div_lz) as nat),
                0 < pow2(64),
        ;
        assert(pow2((127 - div_lz) as nat) <= div < pow2((128 - div_lz) as nat));
    }
    if div_lz >= duo_lz && div_lz - duo_lz < 32 {
        // "mul or mul - 1": the operands' magnitudes are close enough that
        // one half-width division of their top bits pins the quotient down
        // to two candidates
        proof {
            lemma_pow2_adds((63 - duo_lz) as nat, 64);
            lemma_pow2_adds((64 - duo_lz) as nat, 64);
            assert(pow2((63 - duo_lz) as nat) * pow2(64) <= duo_hi * pow2(64)) by (nonlinear_arith)
                requires
                    pow2((63 - duo_lz) as nat) <= duo_hi,
                    0 < pow2(64),
            ;
            assert(duo_hi * pow2(64) + pow2(64) <= pow2((64 - duo_lz) as nat) * pow2(64))
                by (nonlinear_arith)
                requires
                    duo_hi + 1 <= pow2((64 - duo_lz) as nat),
                    0 < pow2(64),
            ;
            assert(pow2((127 - duo_lz) as nat) <= duo < pow2((128 - duo_lz) as nat));
            let shift = 64 - duo_lz;
            if 127 - div_lz > 32 + shift {
                lemma_pow2_strictly_increases((32 + shift) as nat, (127 - div_lz) as nat);
            }
            if 128 - div_lz < 64 + shift {
                lemma_pow2_strictly_increases((128 - div_lz) as nat, (64 + shift) as nat);
            }
        }
        return u128_mul_or_mul_minus_one(duo, div, 64 - duo_lz);
    }
    // estimate the quotient by dividing by the divisor's top 64 bits,
    // rounded down, which can overshoot the true quotient by at most one
    let ghost k: nat = (64 - div_lz) as nat;
    proof {
        lemma_pow2_pos(div_lz as nat);
        lemma_pow2_adds((128 - div_lz) as nat, div_lz as nat);
        assert(div * pow2(div_lz as nat) < pow2((128 - div_lz) as nat) * pow2(div_lz as nat))
            by (nonlinear_arith)
            requires
                div < pow2((128 - div_lz) as nat),
                0 < pow2(div_lz as nat),
        ;
        lemma_shl_is_mul_u128(div, div_lz as u128);
    }
    let div_shifted = div << (div_lz as u128);
    proof {
        lemma_u128_shr_is_div(div_shifted, 64);
        lemma_pow2_adds(div_lz as nat, k);
        lemma_div_denominator(
            (div * pow2(div_lz as nat)) as int,
            pow2(div_lz as nat) as int,
            pow2(k) as int,
        );
        lemma_pow2_pos(div_lz as nat);
        lemma_pow2_pos(k);
        lemma_div_by_multiple(div as int, pow2(div_lz as nat) as int);
        // div_n == div / pow2(k), with its top bit set
        lemma_div_lower_u(div as int, pow2(k) as int, pow2(63) as int);
        lemma_pow2_adds(63, k);
        lemma_div_bound_u(div as int, pow2(k) as int, pow2(64) as int);
        lemma_pow2_adds(64, k);
    }
    let div_n = (div_shifted / 0x10000000000000000) as u64;
    proof {
        // the estimate divisor times 2^64 covers any half dividend
        lemma_u128_shr_is_div(duo, 1);
        lemma_pow2_adds(63, 64);
        assert(pow2(63) * pow2(64) <= div_n * pow2(64)) by (nonlinear_arith)
            requires
                pow2(63) <= div_n,
                0 < pow2(64),
        ;
        lemma_div_bound_u(duo as int, 2, pow2(127) as int);
    }
    let tmp = u128_by_u64_div_rem(duo >> 1, div_n);
    proof {
        // the shifted-out bits compose: tmp.0 >> (63 - div_lz) is
        // duo / (div_n * pow2(k))
        lemma_u64_shr_is_div(tmp.0, (63 - div_lz) as u64);
        lemma_pow2_pos((63 - div_lz) as nat);
        lemma_div_denominator(duo as int, 2, div_n as int);
        lemma_div_denominator(
            duo as int,
            (2 * div_n) as int,
            pow2((63 - div_lz) as nat) as int,
        );
        assert((2 * div_n) * pow2((63 - div_lz) as nat) == div_n * pow2(k)) by (nonlinear_arith)
            requires
                pow2(k) == 2 * pow2((63 - div_lz) as nat),
        ;
        assert(pow2(k) == 2 * pow2((63 - div_lz) as nat)) by {
            lemma_pow2_adds((63 - div_lz) as nat, 1);
        }
        lemma_fundamental_div_mod(div as int, pow2(k) as int);
        lemma_mod_bound(div as int, pow2(k) as int);
        // the estimate exceeds the true quotient by at most one
        lemma_estimate_hypothesis(duo as int, div as int, k, 64);
        assert((div as int / pow2(k) as int) * pow2(k) == pow2(k) as int * (div as int / pow2(
            k,
        ) as int)) by (nonlinear_arith);
        assert(div as int - div as int % pow2(k) as int == div_n * pow2(k));
        lemma_pow2_strictly_increases(k, (63 + k) as nat);
        lemma_mod_bound(div as int, pow2(k) as int);
        lemma_estimate_quotient(
            duo as int,
            div as int,
            div as int % pow2(k) as int,
            duo as int / div as int,
        );
        lemma_fundamental_div_mod(duo as int, div as int);
        lemma_mod_bound(duo as int, div as int);
        lemma_div_pos_is_pos(duo as int, div as int);
    }
    let ghost q = duo as int / div as int;
    let mut quo = tmp.0 >> ((63 - div_lz) as u64);
    proof {
        assert(q <= quo <= q + 1);
    }
    if quo != 0 {
        quo -= 1;
    } else {
        proof {
            lemma_div_zero_iff(duo as int, (div_n * pow2(k)) as int);
            lemma_div_is_ordered_by_denominator(duo as int, (div_n * pow2(k)) as int, div as int);
        }
    }
    proof {
        // now quo is q or q - 1, and one correcting step settles it
        assert(quo * div <= q * div) by (nonlinear_arith)
            requires
                quo <= q,
                0 <= div,
        ;
        assert(q * div == div * q) by (nonlinear_arith);
        assert((q - 1) * div == div * q - div) by (nonlinear_arith);
        assert(quo <= q);
    }
    let mut rem_v = duo - (quo as u128) * div;
    if rem_v >= div {
        proof {
            assert(quo == q - 1) by (nonlinear_arith)
                requires
                    quo == q || quo == q - 1,
                    duo - quo * div >= div,
                    duo - div * q < div,
                    q * div == div * q,
            ;
        }
        quo += 1;
        rem_v -= div;
    }
    proof {
        assert(quo == q) by (nonlinear_arith)
            requires
                quo == q || quo == q - 1,
                duo - quo * div < div,
                duo - div * q >= 0,
                q * div == div * q,
                (q - 1) * div == div * q - div,
                0 < div,
        ;
        assert(rem_v == duo % div);
    }
    return (quo as u128, rem_v);
}

/// Computes the quotient and remainder of `duo` divided by `div` and
/// returns them as a tuple, truncating toward zero.
///
/// Sign handling delegates to the unsigned algorithm on the magnitudes and
/// restores signs afterwards; dividing the minimum value by minus one wraps
/// back to the minimum value with a zero remainder.
pub fn i128_div_rem_asymmetric(duo: i128, div: i128) -> (r: (i128, i128))
    requires
        div != 0,
    ensures
        duo == i128::MIN && div == -1 ==> r.0 == i128::MIN && r.1 == 0,
        !(duo == i128::MIN && div == -1) ==> r.0 == div_trunc(duo as int, div as int) && r.1
            == rem_trunc(duo as int, div as int),
{
    let m = i128_magnitudes(duo, div);
    let t = u128_div_rem_asymmetric(m.0, m.1);
    i128_apply_signs(duo, div, t.0, t.1)
}

/// Computes the quotient and remainder of `duo` divided by `div` and
/// returns them as a tuple.
///
/// This is optimized for dividing integers with the same bit width as the
/// largest operand in an asymmetrically sized division, such as dividing a
/// 64 bit integer by a 32 bit integer when the quotient fits in 32 bits.
#[verifier::loop_isolation(false)]
#[verifier::rlimit(100)]
pub fn u64_div_rem_asymmetric(duo: u64, div: u64) -> (r: (u64, u64))
    requires
        div != 0,
    ensures
        r.0 == duo as int / div as int,
        r.1 == duo as int % div as int,
{
    proof {
        lemma2_to64();
        lemma2_to64_rest();
        lemma_fundamental_div_mod(duo as int, pow2(32) as int);
        lemma_mod_bound(duo as int, pow2(32) as int);
        lemma_div_bound_u(duo as int, pow2(32) as int, pow2(32) as int);
        lemma_fundamental_div_mod(div as int, pow2(32) as int);
        lemma_mod_bound(div as int, pow2(32) as int);
        lemma_div_bound_u(div as int, pow2(32) as int, pow2(32) as int);
        lemma_pow2_adds(32, 32);
    }
    let duo_lo = (duo % 0x100000000) as u32;
    let duo_hi = (duo / 0x100000000) as u32;
    let div_lo = (div % 0x100000000) as u32;
    let div_hi = (div / 0x100000000) as u32;
    if div_hi == 0 {
        if duo_hi < div_lo {
            // the quotient fits the asymmetric primitive directly
            proof {
                assert((duo_hi + 1) * pow2(32) <= div_lo * pow2(32)) by (nonlinear_arith)
                    requires
                        duo_hi + 1 <= div_lo,
                        0 < pow2(32),
                ;
            }
            let t = u64_by_u32_div_rem(duo, div_lo);
            return (t.0 as u64, t.1 as u64);
        } else if div_lo < 0x10000 {
            // short division of the dividend's three limbs by the
            // quarter-sized divisor, carrying remainders downward
            proof {
                lemma_mod_breakdown(duo as int, 0x10000, 0x10000);
                lemma_mod_bound(duo as int, 0x10000);
                lemma_mod_bound((duo as int / 0x10000) as int, 0x10000);
            }
            let div_0 = div as u32;
            let t3 = u32_by_u32_div_rem(duo_hi, div_0);
            proof {
                lemma_fundamental_div_mod(duo_hi as int, div_0 as int);
                lemma_mod_bound(duo_hi as int, div_0 as int);
            }
            let duo_mid = ((duo / 0x10000) % 0x10000) as u32 + t3.1 * 0x10000;
            let t2 = u32_by_u32_div_rem(duo_mid, div_0);
            proof {
                lemma_fundamental_div_mod(duo_mid as int, div_0 as int);
                lemma_mod_bound(duo_mid as int, div_0 as int);
            }
            let duo_low = (duo % 0x10000) as u32 + t2.1 * 0x10000;
            let t1 = u32_by_u32_div_rem(duo_low, div_0);
            proof {
                lemma_fundamental_div_mod(duo_low as int, div_0 as int);
                lemma_mod_bound(duo_low as int, div_0 as int);
                lemma_short_division(
                    duo_hi as int,
                    (duo as int / 0x10000) % 0x10000,
                    duo as int % 0x10000,
                    div_0 as int,
                    0x10000,
                    t3.0 as int,
                    t3.1 as int,
                    t2.0 as int,
                    t2.1 as int,
                    t1.0 as int,
                    t1.1 as int,
                );
                lemma_div_nonincreasing(duo_hi as int, div_0 as int);
                lemma_fundamental_div_mod_converse(
                    duo as int,
                    div as int,
                    ((t3.0 as int * 0x10000) + t2.0 as int) * 0x10000 + t1.0 as int,
                    t1.1 as int,
                );
            }
            return (
                (t1.0 as u64) + (t2.0 as u64) * 0x10000 + (t3.0 as u64)
                    * 0x100000000,
                t1.1 as u64,
            );
        } else {
            // divide the high half first, then finish with the primitive
            let t_hi = u32_by_u32_div_rem(duo_hi, div_lo);
            proof {
                lemma_fundamental_div_mod(duo_hi as int, div_lo as int);
                lemma_mod_bound(duo_hi as int, div_lo as int);
                assert((t_hi.1 + 1) * pow2(32) <= div_lo * pow2(32)) by (nonlinear_arith)
                    requires
                        t_hi.1 + 1 <= div_lo,
                        0 < pow2(32),
                ;
            }
            let next = (duo_lo as u64) + (t_hi.1 as u64) * 0x100000000;
            let t = u64_by_u32_div_rem(next, div_lo);
            proof {
                lemma_fundamental_div_mod(next as int, div_lo as int);
                lemma_mod_bound(next as int, div_lo as int);
                lemma_div_nonincreasing(duo_hi as int, div_lo as int);
                // duo == div * (quo_hi * 2^32 + t.0) + t.1
                assert(div_lo * (t_hi.0 * pow2(32) + t.0) == (div_lo * t_hi.0) * pow2(32)
                    + div_lo * t.0) by (nonlinear_arith);
                assert((div_lo * t_hi.0) * pow2(32) + t_hi.1 * pow2(32) == (div_lo * t_hi.0
                    + t_hi.1) * pow2(32)) by (nonlinear_arith);
                assert((t_hi.0 * pow2(32) + t.0) * div_lo == div_lo * (t_hi.0 * pow2(32) + t.0))
                    by (nonlinear_arith);
                lemma_fundamental_div_mod_converse(
                    duo as int,
                    div as int,
                    t_hi.0 * pow2(32) + t.0,
                    t.1 as int,
                );
            }
            return ((t.0 as u64) + (t_hi.0 as u64) * 0x100000000, t.1 as u64);
        }
    }
    let duo_lz = duo_hi.leading_zeros();
    let div_lz = div_hi.leading_zeros();
    proof {
        lemma_lz_bounds_u32(duo_hi);
        lemma_lz_bounds_u32(div_hi);
        // full-width ranges from the high halves
        lemma_pow2_adds((31 - div_lz) as nat, 32);
        lemma_pow2_adds((32 - div_lz) as nat, 32);
        assert(pow2((31 - div_lz) as nat) * pow2(32) <= div_hi * pow2(32)) by (nonlinear_arith)
            requires
                pow2((31 - div_lz) as nat) <= div_hi,
                0 < pow2(32),
        ;
        assert(div_hi * pow2(32) + pow2(32) <= pow2((32 - div_lz) as nat) * pow2(32))
            by (nonlinear_arith)
            requires
                div_hi + 1 <= pow2((32 - div_lz) as nat),
                0 < pow2(32),
        ;
        assert(pow2((63 - div_lz) as nat) <= div < pow2((64 - div_lz) as nat));
    }
    if div_lz >= duo_lz && div_lz - duo_lz < 16 {
        // "mul or mul - 1": the operands' magnitudes are close enough that
        // one half-width division of their top bits pins the quotient down
        // to two candidates
        proof {
            lemma_pow2_adds((31 - duo_lz) as nat, 32);
            lemma_pow2_adds((32 - duo_lz) as nat, 32);
            assert(pow2((31 - duo_lz) as nat) * pow2(32) <= duo_hi * pow2(32)) by (nonlinear_arith)
                requires
                    pow2((31 - duo_lz) as nat) <= duo_hi,
                    0 < pow2(32),
            ;
            assert(duo_hi * pow2(32) + pow2(32) <= pow2((32 - duo_lz) as nat) * pow2(32))
                by (nonlinear_arith)
                requires
                    duo_hi + 1 <= pow2((32 - duo_lz) as nat),
                    0 < pow2(32),
            ;
            assert(pow2((63 - duo_lz) as nat) <= duo < pow2((64 - duo_lz) as nat));
            let shift = 32 - duo_lz;
            if 63 - div_lz > 16 + shift {
                lemma_pow2_strictly_increases((16 + shift) as nat, (63 - div_lz) as nat);
            }
            if 64 - div_lz < 32 + shift {
                lemma_pow2_strictly_increases((64 - div_lz) as nat, (32 + shift) as nat);
            }
        }
        return u64_mul_or_mul_minus_one(duo, div, 32 - duo_lz);
    }
    // estimate the quotient by dividing by the divisor's top 32 bits,
    // rounded down, which can overshoot the true quotient by at most one
    let ghost k: nat = (32 - div_lz) as nat;
    proof {
        lemma_pow2_pos(div_lz as nat);
        lemma_pow2_adds((64 - div_lz) as nat, div_lz as nat);
        assert(div * pow2(div_lz as nat) < pow2((64 - div_lz) as nat) * pow2(div_lz as nat))
            by (nonlinear_arith)
            requires
                div < pow2((64 - div_lz) as nat),
                0 < pow2(div_lz as nat),
        ;
        lemma_u64_shl_is_mul(div, div_lz as u64);
    }
    let div_shifted = div << (div_lz as u64);
    proof {
        lemma_u64_shr_is_div(div_shifted, 32);
        lemma_pow2_adds(div_lz as nat, k);
        lemma_div_denominator(
            (div * pow2(div_lz as nat)) as int,
            pow2(div_lz as nat) as int,
            pow2(k) as int,
        );
        lemma_pow2_pos(div_lz as nat);
        lemma_pow2_pos(k);
        lemma_div_by_multiple(div as int, pow2(div_lz as nat) as int);
        // div_n == div / pow2(k), with its top bit set
        lemma_div_lower_u(div as int, pow2(k) as int, pow2(31) as int);
        lemma_pow2_adds(31, k);
        lemma_div_bound_u(div as int, pow2(k) as int, pow2(32) as int);
        lemma_pow2_adds(32, k);
    }
    let div_n = (div_shifted / 0x100000000) as u32;
    proof {
        // the estimate divisor times 2^32 covers any half dividend
        lemma_u64_shr_is_div(duo, 1);
        lemma_pow2_adds(31, 32);
        assert(pow2(31) * pow2(32) <= div_n * pow2(32)) by (nonlinear_arith)
            requires
                pow2(31) <= div_n,
                0 < pow2(32),
        ;
        lemma_div_bound_u(duo as int, 2, pow2(63) as int);
    }
    let tmp = u64_by_u32_div_rem(duo >> 1, div_n);
    proof {
        // the shifted-out bits compose: tmp.0 >> (31 - div_lz) is
        // duo / (div_n * pow2(k))
        lemma_u32_shr_is_div(tmp.0, (31 - div_lz) as u32);
        lemma_pow2_pos((31 - div_lz) as nat);
        lemma_div_denominator(duo as int, 2, div_n as int);
        lemma_div_denominator(
            duo as int,
            (2 * div_n) as int,
            pow2((31 - div_lz) as nat) as int,
        );
        assert((2 * div_n) * pow2((31 - div_lz) as nat) == div_n * pow2(k)) by (nonlinear_arith)
            requires
                pow2(k) == 2 * pow2((31 - div_lz) as nat),
        ;
        assert(pow2(k) == 2 * pow2((31 - div_lz) as nat)) by {
            lemma_pow2_adds((31 - div_lz) as nat, 1);
        }
        lemma_fundamental_div_mod(div as int, pow2(k) as int);
        lemma_mod_bound(div as int, pow2(k) as int);
        // the estimate exceeds the true quotient by at most one
        lemma_estimate_hypothesis(duo as int, div as int, k, 32);
        assert((div as int / pow2(k) as int) * pow2(k) == pow2(k) as int * (div as int / pow2(
            k,
        ) as int)) by (nonlinear_arith);
        assert(div as int - div as int % pow2(k) as int == div_n * pow2(k));
        lemma_pow2_strictly_increases(k, (31 + k) as nat);
        lemma_mod_bound(div as int, pow2(k) as int);
        lemma_estimate_quotient(
            duo as int,
            div as int,
            div as int % pow2(k) as int,
            duo as int / div as int,
        );
        lemma_fundamental_div_mod(duo as int, div as int);
        lemma_mod_bound(duo as int, div as int);
        lemma_div_pos_is_pos(duo as int, div as int);
    }
    let ghost q = duo as int / div as int;
    let mut quo = tmp.0 >> ((31 - div_lz) as u32);
    proof {
        assert(q <= quo <= q + 1);
    }
    if quo != 0 {
        quo -= 1;
    } else {
        proof {
            lemma_div_zero_iff(duo as int, (div_n * pow2(k)) as int);
            lemma_div_is_ordered_by_denominator(duo as int, (div_n * pow2(k)) as int, div as int);
        }
    }
    proof {
        // now quo is q or q - 1, and one correcting step settles it
        assert(quo * div <= q * div) by (nonlinear_arith)
            requires
                quo <= q,
                0 <= div,
        ;
        assert(q * div == div * q) by (nonlinear_arith);
        assert((q - 1) * div == div * q - div) by (nonlinear_arith);
        assert(quo <= q);
    }
    let mut rem_v = duo - (quo as u64) * div;
    if rem_v >= div {
        proof {
            assert(quo == q - 1) by (nonlinear_arith)
                requires
                    quo == q || quo == q - 1,
                    duo - quo * div >= div,
                    duo - div * q < div,
                    q * div == div * q,
            ;
        }
        quo += 1;
        rem_v -= div;
    }
    proof {
        assert(quo == q) by (nonlinear_arith)
            requires
                quo == q || quo == q - 1,
                duo - quo * div < div,
                duo - div * q >= 0,
                q * div == div * q,
                (q - 1) * div == div * q - div,
                0 < div,
        ;
        assert(rem_v == duo % div);
    }
    return (quo as u64, rem_v);
}

/// Computes the quotient and remainder of `duo` divided by `div` and
/// returns them as a tuple, truncating toward zero.
///
/// Sign handling delegates to the unsigned algorithm on the magnitudes and
/// restores signs afterwards; dividing the minimum value by minus one wraps
/// back to the minimum value with a zero remainder.
pub fn i64_div_rem_asymmetric(duo: i64, div: i64) -> (r: (i64, i64))
    requires
        div != 0,
    ensures
        duo == i64::MIN && div == -1 ==> r.0 == i64::MIN && r.1 == 0,
        !(duo == i64::MIN && div == -1) ==> r.0 == div_trunc(duo as int, div as int) && r.1
            == rem_trunc(duo as int, div as int),
{
    let m = i64_magnitudes(duo, div);
    let t = u64_div_rem_asymmetric(m.0, m.1);
    i64_apply_signs(duo, div, t.0, t.1)
}

} // verus!
