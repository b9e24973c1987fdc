//! Delegating division: binary shift long division that hands work to a
//! half-width division whenever the operands allow it. Used for targets
//! whose register size is half the division size and that have no fast
//! multiplication or division hardware.

use crate::bits::{
    lemma_div_zero_iff, lemma_lz_bounds_u16, lemma_lz_bounds_u32, lemma_lz_bounds_u64,
    lemma_pow2_above64, lemma_shl_is_mul_u128,
};
use crate::implement::{u16_by_u16_div_rem, u32_by_u32_div_rem, u64_by_u64_div_rem};
use crate::signed::{
    div_trunc, i128_apply_signs, i128_magnitudes, i32_apply_signs, i32_magnitudes,
    i64_apply_signs, i64_magnitudes, rem_trunc,
};
use crate::theory::lemma_short_division;
use vstd::arithmetic::div_mod::*;
use vstd::arithmetic::mul::*;
use vstd::arithmetic::power2::*;
use vstd::bits::*;
use vstd::prelude::*;


verus! {

/// Computes the quotient and remainder of `duo` divided by `div` and
/// returns them as a tuple.
///
/// This uses binary shift long division, but if it can delegates work to a
/// smaller division: directly when the operands fit in one half, by
/// schoolbook short division when the divisor fits in a quarter, and by
/// finishing with a half division once the running remainder fits.
#[verifier::loop_isolation(false)]
#[verifier::rlimit(60)]
pub fn u32_div_rem_delegate(duo: u32, div: u32) -> (r: (u32, u32))
    requires
        div != 0,
    ensures
        r.0 == duo as int / div as int,
        r.1 == duo as int % div as int,
{
    proof {
        lemma2_to64();
    }
    let duo_lo = (duo % 0x10000) as u16;
    let duo_hi = (duo / 0x10000) as u16;
    let div_lo = (div % 0x10000) as u16;
    let div_hi = (div / 0x10000) as u16;
    proof {
        lemma_fundamental_div_mod(duo as int, 0x10000);
        lemma_fundamental_div_mod(div as int, 0x10000);
        lemma_mod_bound(duo as int, 0x10000);
        lemma_mod_bound(div as int, 0x10000);
    }
    if div_hi == 0 {
        if duo_hi == 0 {
            // both operands fit in one half: delegate to smaller division
            let t = u16_by_u16_div_rem(duo_lo, div_lo);
            return (t.0 as u32, t.1 as u32);
        }
        if div_lo < 0x100 {
            // short division of the dividend's three quarter-width limbs by
            // the quarter-sized divisor, carrying remainders downward
            let div_0 = div_lo;
            let t3 = u16_by_u16_div_rem(duo_hi, div_0);
            let duo_mid = ((duo / 0x100) % 0x100) as u16 + t3.1 * 0x100;
            let t2 = u16_by_u16_div_rem(duo_mid, div_0);
            let duo_low = (duo % 0x100) as u16 + t2.1 * 0x100;
            let t1 = u16_by_u16_div_rem(duo_low, div_0);
            proof {
                lemma_mod_breakdown(duo as int, 0x100, 0x100);
                lemma_fundamental_div_mod(duo_hi as int, div_0 as int);
                lemma_mod_bound(duo_hi as int, div_0 as int);
                lemma_fundamental_div_mod(duo_mid as int, div_0 as int);
                lemma_mod_bound(duo_mid as int, div_0 as int);
                lemma_fundamental_div_mod(duo_low as int, div_0 as int);
                lemma_mod_bound(duo_low as int, div_0 as int);
                lemma_mod_bound(duo as int, 0x100);
                lemma_mod_bound((duo as int / 0x100) as int, 0x100);
                lemma_short_division(
                    duo_hi as int,
                    (duo as int / 0x100) % 0x100,
                    duo as int % 0x100,
                    div_0 as int,
                    0x100,
                    t3.0 as int,
                    t3.1 as int,
                    t2.0 as int,
                    t2.1 as int,
                    t1.0 as int,
                    t1.1 as int,
                );
                lemma_div_nonincreasing(duo_hi as int, div_0 as int);
                lemma_fundamental_div_mod_converse(
                    duo as int,
                    div as int,
                    ((t3.0 as int * 0x100) + t2.0 as int) * 0x100 + t1.0 as int,
                    t1.1 as int,
                );
            }
            return (
                (t1.0 as u32) + (t2.0 as u32) * 0x100 + (t3.0 as u32) * 0x10000,
                t1.1 as u32,
            );
        }
        // binary long division of the wide dividend by the one-limb divisor
        let div_lz = div_lo.leading_zeros() + 16;
        let duo_lz = duo_hi.leading_zeros();
        proof {
            lemma_lz_bounds_u16(div_lo);
            lemma_lz_bounds_u16(duo_hi);
            // value range of duo from its high half
            lemma_pow2_adds((15 - duo_lz) as nat, 16);
            lemma_pow2_adds((16 - duo_lz) as nat, 16);
            assert(pow2((15 - duo_lz) as nat) * pow2(16) <= duo_hi * pow2(16)) by (nonlinear_arith)
                requires
                    pow2((15 - duo_lz) as nat) <= duo_hi,
                    pow2(16) > 0,
            ;
            assert(duo_hi * pow2(16) + pow2(16) <= pow2((16 - duo_lz) as nat) * pow2(16))
                by (nonlinear_arith)
                requires
                    duo_hi + 1 <= pow2((16 - duo_lz) as nat),
                    pow2(16) > 0,
            ;
            assert(pow2((31 - duo_lz) as nat) <= duo < pow2((32 - duo_lz) as nat));
        }
        let mut shift = div_lz - duo_lz;
        let ghost s = shift;
        proof {
            // div << shift stays within the dividend's bit range
            lemma_pow2_pos(shift as nat);
            lemma_pow2_adds((32 - div_lz) as nat, shift as nat);
            assert(div * pow2(shift as nat) < pow2((32 - div_lz) as nat) * pow2(shift as nat))
                by (nonlinear_arith)
                requires
                    div < pow2((32 - div_lz) as nat),
                    pow2(shift as nat) > 0,
            ;
            if 32 - duo_lz < 32 {
                lemma_pow2_strictly_increases((32 - duo_lz) as nat, 32);
            }
            lemma_u32_shl_is_mul(div_lo as u32, shift);
            lemma_pow2_adds((31 - div_lz) as nat, (shift + 1) as nat);
            assert(pow2((31 - div_lz) as nat) * pow2((shift + 1) as nat) <= div * pow2(
                (shift + 1) as nat,
            )) by (nonlinear_arith)
                requires
                    pow2((31 - div_lz) as nat) <= div,
                    pow2((shift + 1) as nat) > 0,
            ;
            lemma_pow2_adds(shift as nat, 1);
            assert(div * pow2((shift + 1) as nat) == 2 * (div * pow2(shift as nat)))
                by (nonlinear_arith)
                requires
                    pow2((shift + 1) as nat) == 2 * pow2(shift as nat),
            ;
        }
        let mut sub: u32 = (div_lo as u32) << shift;
        let initial_shift = shift;
        let mut duo_r = duo;
        let quo_edge = if sub <= duo_r {
            duo_r -= sub;
            true
        } else {
            false
        };
        let ghost qe: int = if quo_edge {
            1
        } else {
            0
        };
        let mut quo_hi: u32 = 0;
        proof {
            lemma_pow2_pos(s as nat);
            lemma_mul_basics(pow2(s as nat) as int);
            lemma_mul_basics(div as int);
            assert(div * (qe * pow2(s as nat) + 0 * pow2(s as nat)) == qe * (div * pow2(
                s as nat,
            ))) by (nonlinear_arith);
        }
        loop
            invariant
                0x100 <= div < 0x10000,
                shift <= s < 32,
                sub == div * pow2(shift as nat),
                duo == div * (qe * pow2(s as nat) + quo_hi * pow2(shift as nat)) + duo_r,
                duo_r < div * pow2(shift as nat),
                quo_hi * pow2(shift as nat) < pow2(s as nat),
            decreases shift,
        {
            proof {
                lemma_pow2_pos(shift as nat);
                lemma_mul_basics(div as int);
                if shift == 0 {
                    lemma_div_zero_iff(duo_r as int, 0x10000);
                }
            }
            let duo_hi2 = duo_r / 0x10000;
            if duo_hi2 == 0 || shift == 0 {
                proof {
                    lemma_div_zero_iff(duo_r as int, 0x10000);
                }
                let duo_small = (duo_r % 0x10000) as u16;
                let t = u16_by_u16_div_rem(duo_small, div_lo);
                proof {
                    lemma_fundamental_div_mod(duo_small as int, div as int);
                    lemma_mod_bound(duo_small as int, div as int);
                    let q = qe * pow2(s as nat) + quo_hi * pow2(shift as nat) + t.0;
                    assert(duo == div * q + t.1) by (nonlinear_arith)
                        requires
                            duo == div * (qe * pow2(s as nat) + quo_hi * pow2(shift as nat))
                                + duo_r,
                            duo_r == div * (t.0 as int) + t.1,
                            q == qe * pow2(s as nat) + quo_hi * pow2(shift as nat) + t.0,
                    ;
                    assert(q <= div * q) by (nonlinear_arith)
                        requires
                            1 <= div,
                            0 <= q,
                    ;
                    lemma_fundamental_div_mod_converse(duo as int, div as int, q, t.1 as int);
                    lemma_u32_shl_is_mul(quo_hi, shift);
                    assert(pow2(s as nat) <= div * pow2(s as nat)) by (nonlinear_arith)
                        requires
                            1 <= div,
                            0 < pow2(s as nat),
                    ;
                    lemma_u32_shl_is_mul(1u32, initial_shift);
                    lemma_mul_basics(pow2(s as nat) as int);
                    lemma_mul_is_commutative(1, pow2(s as nat) as int);
                }
                let edge: u32 = if quo_edge {
                    1u32 << initial_shift
                } else {
                    0
                };
                return ((t.0 as u32) + (quo_hi << shift) + edge, t.1 as u32);
            }
            proof {
                // the quotient bits gathered so far, shifted one more step,
                // still fit under the initial shift
                lemma_pow2_adds((shift - 1) as nat, 1);
                lemma_pow2_adds((s - shift) as nat, shift as nat);
                assert(quo_hi < pow2((s - shift) as nat)) by (nonlinear_arith)
                    requires
                        quo_hi * pow2(shift as nat) < pow2(s as nat),
                        pow2(s as nat) == pow2((s - shift) as nat) * pow2(shift as nat),
                        pow2(shift as nat) > 0,
                        0 <= quo_hi,
                ;
                assert((2 * quo_hi + 1) * pow2((shift - 1) as nat) < pow2(s as nat))
                    by (nonlinear_arith)
                    requires
                        quo_hi + 1 <= pow2((s - shift) as nat),
                        pow2(s as nat) == pow2((s - shift) as nat) * pow2(shift as nat),
                        pow2(shift as nat) == 2 * pow2((shift - 1) as nat),
                        pow2((shift - 1) as nat) > 0,
                ;
                assert((2 * quo_hi) * pow2((shift - 1) as nat) < pow2(s as nat))
                    by (nonlinear_arith)
                    requires
                        (2 * quo_hi + 1) * pow2((shift - 1) as nat) < pow2(s as nat),
                        pow2((shift - 1) as nat) > 0,
                        0 <= quo_hi,
                ;
                assert(quo_hi <= quo_hi * pow2(shift as nat)) by (nonlinear_arith)
                    requires
                        0 <= quo_hi,
                        0 < pow2(shift as nat),
                ;
                if (s as nat) < 31 {
                    lemma_pow2_strictly_increases(s as nat, 31);
                }
                lemma_pow2_adds(31, 1);
                assert(div * pow2(shift as nat) == 2 * (div * pow2((shift - 1) as nat)))
                    by (nonlinear_arith)
                    requires
                        pow2(shift as nat) == 2 * pow2((shift - 1) as nat),
                ;
                assert(pow2((s - shift) as nat) * pow2(shift as nat) <= pow2(s as nat));
                if s < 32 {
                    lemma_pow2_strictly_increases(s as nat, 32);
                }
                assert(duo == div * (qe * pow2(s as nat) + (2 * quo_hi) * pow2(
                    (shift - 1) as nat,
                )) + duo_r) by (nonlinear_arith)
                    requires
                        duo == div * (qe * pow2(s as nat) + quo_hi * pow2(shift as nat)) + duo_r,
                        pow2(shift as nat) == 2 * pow2((shift - 1) as nat),
                ;
            }
            shift -= 1;
            quo_hi = quo_hi * 2;
            sub = sub / 2;
            if sub <= duo_r {
                proof {
                    assert(div * (qe * pow2(s as nat) + (quo_hi + 1) * pow2(shift as nat)) == div
                        * (qe * pow2(s as nat) + quo_hi * pow2(shift as nat)) + div * pow2(
                        shift as nat,
                    )) by (nonlinear_arith);
                }
                duo_r -= sub;
                quo_hi += 1;
            }
        }
    } else {
        if duo_hi == 0 {
            // the divisor's high half is set but the dividend's is not
            proof {
                assert(duo < div);
                lemma_basic_div(duo as int, div as int);
                lemma_small_mod(duo as nat, div as nat);
            }
            return (0, duo);
        }
        // full-width binary long division, normalized via the high halves
        let div_lz = div_hi.leading_zeros();
        let duo_lz = duo_hi.leading_zeros();
        proof {
            lemma_lz_bounds_u16(div_hi);
            lemma_lz_bounds_u16(duo_hi);
            lemma_pow2_adds((15 - duo_lz) as nat, 16);
            lemma_pow2_adds((16 - duo_lz) as nat, 16);
            assert(pow2((15 - duo_lz) as nat) * pow2(16) <= duo_hi * pow2(16)) by (nonlinear_arith)
                requires
                    pow2((15 - duo_lz) as nat) <= duo_hi,
                    pow2(16) > 0,
            ;
            assert(duo_hi * pow2(16) + pow2(16) <= pow2((16 - duo_lz) as nat) * pow2(16))
                by (nonlinear_arith)
                requires
                    duo_hi + 1 <= pow2((16 - duo_lz) as nat),
                    pow2(16) > 0,
            ;
            lemma_pow2_adds((15 - div_lz) as nat, 16);
            lemma_pow2_adds((16 - div_lz) as nat, 16);
            assert(pow2((15 - div_lz) as nat) * pow2(16) <= div_hi * pow2(16)) by (nonlinear_arith)
                requires
                    pow2((15 - div_lz) as nat) <= div_hi,
                    pow2(16) > 0,
            ;
            assert(div_hi * pow2(16) + pow2(16) <= pow2((16 - div_lz) as nat) * pow2(16))
                by (nonlinear_arith)
                requires
                    div_hi + 1 <= pow2((16 - div_lz) as nat),
                    pow2(16) > 0,
            ;
            assert(pow2((31 - duo_lz) as nat) <= duo < pow2((32 - duo_lz) as nat));
            assert(pow2((31 - div_lz) as nat) <= div < pow2((32 - div_lz) as nat));
        }
        if div_lz < duo_lz {
            // the divisor reaches a higher bit than the dividend
            proof {
                if 32 - duo_lz < 31 - div_lz {
                    lemma_pow2_strictly_increases((32 - duo_lz) as nat, (31 - div_lz) as nat);
                }
                lemma_basic_div(duo as int, div as int);
                lemma_small_mod(duo as nat, div as nat);
            }
            return (0, duo);
        }
        let mut shift = div_lz - duo_lz;
        proof {
            lemma_pow2_adds((32 - div_lz) as nat, shift as nat);
            assert(div * pow2(shift as nat) < pow2((32 - div_lz) as nat) * pow2(shift as nat))
                by (nonlinear_arith)
                requires
                    div < pow2((32 - div_lz) as nat),
                    pow2(shift as nat) > 0,
            ;
            if 32 - duo_lz < 32 {
                lemma_pow2_strictly_increases((32 - duo_lz) as nat, 32);
            }
            lemma_pow2_pos(shift as nat);
            lemma_u32_shl_is_mul(div, shift);
            lemma_pow2_adds((31 - div_lz) as nat, (shift + 1) as nat);
            assert(pow2((31 - div_lz) as nat) * pow2((shift + 1) as nat) <= div * pow2(
                (shift + 1) as nat,
            )) by (nonlinear_arith)
                requires
                    pow2((31 - div_lz) as nat) <= div,
                    pow2((shift + 1) as nat) > 0,
            ;
            lemma_pow2_adds(shift as nat, 1);
            assert(div * pow2((shift + 1) as nat) == 2 * (div * pow2(shift as nat)))
                by (nonlinear_arith)
                requires
                    pow2((shift + 1) as nat) == 2 * pow2(shift as nat),
            ;
        }
        proof {
            lemma_mul_basics(div as int);
            assert(div * (0 * pow2(shift as nat)) == 0) by (nonlinear_arith);
        }
        let mut duo_r = duo;
        let mut quo: u32 = 0;
        let mut sub: u32 = div << shift;
        loop
            invariant
                0x10000 <= div,
                shift < 32,
                sub == div * pow2(shift as nat),
                duo == div * (quo * pow2(shift as nat)) + duo_r,
                duo_r < div * pow2((shift + 1) as nat),
            decreases shift,
        {
            proof {
                lemma_pow2_pos(shift as nat);
                lemma_mul_basics(div as int);
                lemma_pow2_adds(shift as nat, 1);
                assert(div * pow2((shift + 1) as nat) == 2 * (div * pow2(shift as nat)))
                    by (nonlinear_arith)
                    requires
                        pow2((shift + 1) as nat) == 2 * pow2(shift as nat),
                ;
            }
            if sub <= duo_r {
                proof {
                    assert(div * ((quo + 1) * pow2(shift as nat)) == div * (quo * pow2(
                        shift as nat,
                    )) + div * pow2(shift as nat)) by (nonlinear_arith);
                    assert((quo + 1) * pow2(shift as nat) <= div * ((quo + 1) * pow2(
                        shift as nat,
                    ))) by (nonlinear_arith)
                        requires
                            1 <= div,
                            0 <= quo + 1,
                            0 < pow2(shift as nat),
                    ;
                    assert(quo + 1 <= (quo + 1) * pow2(shift as nat)) by (nonlinear_arith)
                        requires
                            0 <= quo + 1,
                            0 < pow2(shift as nat),
                    ;
                }
                duo_r -= sub;
                quo += 1;
                if duo_r / 0x10000 == 0 {
                    // what remains is below the divisor's high half
                    proof {
                        lemma_div_zero_iff(duo_r as int, 0x10000);
                        lemma_u32_shl_is_mul(quo, shift);
                        lemma_mul_is_commutative(quo as int, pow2(shift as nat) as int);
                        lemma_fundamental_div_mod_converse(
                            duo as int,
                            div as int,
                            quo as int * pow2(shift as nat) as int,
                            duo_r as int,
                        );
                    }
                    return (quo << shift, duo_r);
                }
            }
            if shift == 0 {
                proof {
                    lemma_mul_basics(quo as int);
                    lemma_mul_is_commutative(quo as int, div as int);
                    lemma_fundamental_div_mod_converse(
                        duo as int,
                        div as int,
                        quo as int,
                        duo_r as int,
                    );
                }
                return (quo, duo_r);
            }
            proof {
                lemma_pow2_adds((shift - 1) as nat, 1);
                assert(div * pow2(shift as nat) == 2 * (div * pow2((shift - 1) as nat)))
                    by (nonlinear_arith)
                    requires
                        pow2(shift as nat) == 2 * pow2((shift - 1) as nat),
                ;
                assert(div * (quo * pow2(shift as nat)) == div * ((2 * quo) * pow2(
                    (shift - 1) as nat,
                ))) by (nonlinear_arith)
                    requires
                        pow2(shift as nat) == 2 * pow2((shift - 1) as nat),
                ;
                assert((2 * quo) * pow2((shift - 1) as nat) <= div * ((2 * quo) * pow2(
                    (shift - 1) as nat,
                ))) by (nonlinear_arith)
                    requires
                        1 <= div,
                        0 <= 2 * quo,
                        0 < pow2((shift - 1) as nat),
                ;
                assert(2 * quo <= (2 * quo) * pow2((shift - 1) as nat)) by (nonlinear_arith)
                    requires
                        0 <= 2 * quo,
                        0 < pow2((shift - 1) as nat),
                ;
            }
            shift -= 1;
            sub = sub / 2;
            quo = quo * 2;
        }
    }
}

/// Computes the quotient and remainder of `duo` divided by `div` and
/// returns them as a tuple, truncating toward zero.
///
/// Sign handling delegates to the unsigned algorithm on the magnitudes and
/// restores signs afterwards; dividing the minimum value by minus one wraps
/// back to the minimum value with a zero remainder.
pub fn i32_div_rem_delegate(duo: i32, div: i32) -> (r: (i32, i32))
    requires
        div != 0,
    ensures
        duo == i32::MIN && div == -1 ==> r.0 == i32::MIN && r.1 == 0,
        !(duo == i32::MIN && div == -1) ==> r.0 == div_trunc(duo as int, div as int) && r.1
            == rem_trunc(duo as int, div as int),
{
    let m = i32_magnitudes(duo, div);
    let t = u32_div_rem_delegate(m.0, m.1);
    i32_apply_signs(duo, div, t.0, t.1)
}

/// Computes the quotient and remainder of `duo` divided by `div` and
/// returns them as a tuple.
///
/// This uses binary shift long division, but if it can delegates work to a
/// smaller division: directly when the operands fit in one half, by
/// schoolbook short division when the divisor fits in a quarter, and by
/// finishing with a half division once the running remainder fits.
#[verifier::loop_isolation(false)]
#[verifier::rlimit(60)]
pub fn u64_div_rem_delegate(duo: u64, div: u64) -> (r: (u64, u64))
    requires
        div != 0,
    ensures
        r.0 == duo as int / div as int,
        r.1 == duo as int % div as int,
{
    proof {
        lemma2_to64();
        lemma2_to64_rest();
    }
    let duo_lo = (duo % 0x100000000) as u32;
    let duo_hi = (duo / 0x100000000) as u32;
    let div_lo = (div % 0x100000000) as u32;
    let div_hi = (div / 0x100000000) as u32;
    proof {
        lemma_fundamental_div_mod(duo as int, 0x100000000);
        lemma_fundamental_div_mod(div as int, 0x100000000);
        lemma_mod_bound(duo as int, 0x100000000);
        lemma_mod_bound(div as int, 0x100000000);
    }
    if div_hi == 0 {
        if duo_hi == 0 {
            // both operands fit in one half: delegate to smaller division
            let t = u32_by_u32_div_rem(duo_lo, div_lo);
            return (t.0 as u64, t.1 as u64);
        }
        if div_lo < 0x10000 {
            // short division of the dividend's three quarter-width limbs by
            // the quarter-sized divisor, carrying remainders downward
            let div_0 = div_lo;
            let t3 = u32_by_u32_div_rem(duo_hi, div_0);
            let duo_mid = ((duo / 0x10000) % 0x10000) as u32 + t3.1 * 0x10000;
            let t2 = u32_by_u32_div_rem(duo_mid, div_0);
            let duo_low = (duo % 0x10000) as u32 + t2.1 * 0x10000;
            let t1 = u32_by_u32_div_rem(duo_low, div_0);
            proof {
                lemma_mod_breakdown(duo as int, 0x10000, 0x10000);
                lemma_fundamental_div_mod(duo_hi as int, div_0 as int);
                lemma_mod_bound(duo_hi as int, div_0 as int);
                lemma_fundamental_div_mod(duo_mid as int, div_0 as int);
                lemma_mod_bound(duo_mid as int, div_0 as int);
                lemma_fundamental_div_mod(duo_low as int, div_0 as int);
                lemma_mod_bound(duo_low as int, div_0 as int);
                lemma_mod_bound(duo as int, 0x10000);
                lemma_mod_bound((duo as int / 0x10000) as int, 0x10000);
                lemma_short_division(
                    duo_hi as int,
                    (duo as int / 0x10000) % 0x10000,
                    duo as int % 0x10000,
                    div_0 as int,
                    0x10000,
                    t3.0 as int,
                    t3.1 as int,
                    t2.0 as int,
                    t2.1 as int,
                    t1.0 as int,
                    t1.1 as int,
                );
                lemma_div_nonincreasing(duo_hi as int, div_0 as int);
                lemma_fundamental_div_mod_converse(
                    duo as int,
                    div as int,
                    ((t3.0 as int * 0x10000) + t2.0 as int) * 0x10000 + t1.0 as int,
                    t1.1 as int,
                );
            }
            return (
                (t1.0 as u64) + (t2.0 as u64) * 0x10000 + (t3.0 as u64) * 0x100000000,
                t1.1 as u64,
            );
        }
        // binary long division of the wide dividend by the one-limb divisor
        let div_lz = div_lo.leading_zeros() + 32;
        let duo_lz = duo_hi.leading_zeros();
        proof {
            lemma_lz_bounds_u32(div_lo);
            lemma_lz_bounds_u32(duo_hi);
            // value range of duo from its high half
            lemma_pow2_adds((31 - duo_lz) as nat, 32);
            lemma_pow2_adds((32 - duo_lz) as nat, 32);
            assert(pow2((31 - duo_lz) as nat) * pow2(32) <= duo_hi * pow2(32)) by (nonlinear_arith)
                requires
                    pow2((31 - duo_lz) as nat) <= duo_hi,
                    pow2(32) > 0,
            ;
            assert(duo_hi * pow2(32) + pow2(32) <= pow2((32 - duo_lz) as nat) * pow2(32))
                by (nonlinear_arith)
                requires
                    duo_hi + 1 <= pow2((32 - duo_lz) as nat),
                    pow2(32) > 0,
            ;
            assert(pow2((63 - duo_lz) as nat) <= duo < pow2((64 - duo_lz) as nat));
        }
        let mut shift = div_lz - duo_lz;
        let ghost s = shift;
        proof {
            // div << shift stays within the dividend's bit range
            lemma_pow2_pos(shift as nat);
            lemma_pow2_adds((64 - div_lz) as nat, shift as nat);
            assert(div * pow2(shift as nat) < pow2((64 - div_lz) as nat) * pow2(shift as nat))
                by (nonlinear_arith)
                requires
                    div < pow2((64 - div_lz) as nat),
                    pow2(shift as nat) > 0,
            ;
            if 64 - duo_lz < 64 {
                lemma_pow2_strictly_increases((64 - duo_lz) as nat, 64);
            }
            lemma_u64_shl_is_mul(div_lo as u64, shift as u64);
            lemma_pow2_adds((63 - div_lz) as nat, (shift + 1) as nat);
            assert(pow2((63 - div_lz) as nat) * pow2((shift + 1) as nat) <= div * pow2(
                (shift + 1) as nat,
            )) by (nonlinear_arith)
                requires
                    pow2((63 - div_lz) as nat) <= div,
                    pow2((shift + 1) as nat) > 0,
            ;
            lemma_pow2_adds(shift as nat, 1);
            assert(div * pow2((shift + 1) as nat) == 2 * (div * pow2(shift as nat)))
                by (nonlinear_arith)
                requires
                    pow2((shift + 1) as nat) == 2 * pow2(shift as nat),
            ;
        }
        let mut sub: u64 = (div_lo as u64) << (shift as u64);
        let initial_shift = shift;
        let mut duo_r = duo;
        let quo_edge = if sub <= duo_r {
            duo_r -= sub;
            true
        } else {
            false
        };
        let ghost qe: int = if quo_edge {
            1
        } else {
            0
        };
        let mut quo_hi: u64 = 0;
        proof {
            lemma_pow2_pos(s as nat);
            lemma_mul_basics(pow2(s as nat) as int);
            lemma_mul_basics(div as int);
            assert(div * (qe * pow2(s as nat) + 0 * pow2(s as nat)) == qe * (div * pow2(
                s as nat,
            ))) by (nonlinear_arith);
        }
        loop
            invariant
                0x10000 <= div < 0x100000000,
                shift <= s < 64,
                sub == div * pow2(shift as nat),
                duo == div * (qe * pow2(s as nat) + quo_hi * pow2(shift as nat)) + duo_r,
                duo_r < div * pow2(shift as nat),
                quo_hi * pow2(shift as nat) < pow2(s as nat),
            decreases shift,
        {
            proof {
                lemma_pow2_pos(shift as nat);
                lemma_mul_basics(div as int);
                if shift == 0 {
                    lemma_div_zero_iff(duo_r as int, 0x100000000);
                }
            }
            let duo_hi2 = duo_r / 0x100000000;
            if duo_hi2 == 0 || shift == 0 {
                proof {
                    lemma_div_zero_iff(duo_r as int, 0x100000000);
                }
                let duo_small = (duo_r % 0x100000000) as u32;
                let t = u32_by_u32_div_rem(duo_small, div_lo);
                proof {
                    lemma_fundamental_div_mod(duo_small as int, div as int);
                    lemma_mod_bound(duo_small as int, div as int);
                    let q = qe * pow2(s as nat) + quo_hi * pow2(shift as nat) + t.0;
                    assert(duo == div * q + t.1) by (nonlinear_arith)
                        requires
                            duo == div * (qe * pow2(s as nat) + quo_hi * pow2(shift as nat))
                                + duo_r,
                            duo_r == div * (t.0 as int) + t.1,
                            q == qe * pow2(s as nat) + quo_hi * pow2(shift as nat) + t.0,
                    ;
                    assert(q <= div * q) by (nonlinear_arith)
                        requires
                            1 <= div,
                            0 <= q,
                    ;
                    lemma_fundamental_div_mod_converse(duo as int, div as int, q, t.1 as int);
                    lemma_u64_shl_is_mul(quo_hi, shift as u64);
                    assert(pow2(s as nat) <= div * pow2(s as nat)) by (nonlinear_arith)
                        requires
                            1 <= div,
                            0 < pow2(s as nat),
                    ;
                    lemma_u64_shl_is_mul(1u64, initial_shift as u64);
                    lemma_mul_basics(pow2(s as nat) as int);
                    lemma_mul_is_commutative(1, pow2(s as nat) as int);
                }
                let edge: u64 = if quo_edge {
                    1u64 << (initial_shift as u64)
                } else {
                    0
                };
                return ((t.0 as u64) + (quo_hi << (shift as u64)) + edge, t.1 as u64);
            }
            proof {
                // the quotient bits gathered so far, shifted one more step,
                // still fit under the initial shift
                lemma_pow2_adds((shift - 1) as nat, 1);
                lemma_pow2_adds((s - shift) as nat, shift as nat);
                assert(quo_hi < pow2((s - shift) as nat)) by (nonlinear_arith)
                    requires
                        quo_hi * pow2(shift as nat) < pow2(s as nat),
                        pow2(s as nat) == pow2((s - shift) as nat) * pow2(shift as nat),
                        pow2(shift as nat) > 0,
                        0 <= quo_hi,
                ;
                assert((2 * quo_hi + 1) * pow2((shift - 1) as nat) < pow2(s as nat))
                    by (nonlinear_arith)
                    requires
                        quo_hi + 1 <= pow2((s - shift) as nat),
                        pow2(s as nat) == pow2((s - shift) as nat) * pow2(shift as nat),
                        pow2(shift as nat) == 2 * pow2((shift - 1) as nat),
                        pow2((shift - 1) as nat) > 0,
                ;
                assert((2 * quo_hi) * pow2((shift - 1) as nat) < pow2(s as nat))
                    by (nonlinear_arith)
                    requires
                        (2 * quo_hi + 1) * pow2((shift - 1) as nat) < pow2(s as nat),
                        pow2((shift - 1) as nat) > 0,
                        0 <= quo_hi,
                ;
                assert(quo_hi <= quo_hi * pow2(shift as nat)) by (nonlinear_arith)
                    requires
                        0 <= quo_hi,
                        0 < pow2(shift as nat),
                ;
                if (s as nat) < 63 {
                    lemma_pow2_strictly_increases(s as nat, 63);
                }
                lemma_pow2_adds(63, 1);
                assert(div * pow2(shift as nat) == 2 * (div * pow2((shift - 1) as nat)))
                    by (nonlinear_arith)
                    requires
                        pow2(shift as nat) == 2 * pow2((shift - 1) as nat),
                ;
                assert(pow2((s - shift) as nat) * pow2(shift as nat) <= pow2(s as nat));
                if s < 64 {
                    lemma_pow2_strictly_increases(s as nat, 64);
                }
                assert(duo == div * (qe * pow2(s as nat) + (2 * quo_hi) * pow2(
                    (shift - 1) as nat,
                )) + duo_r) by (nonlinear_arith)
                    requires
                        duo == div * (qe * pow2(s as nat) + quo_hi * pow2(shift as nat)) + duo_r,
                        pow2(shift as nat) == 2 * pow2((shift - 1) as nat),
                ;
            }
            shift -= 1;
            quo_hi = quo_hi * 2;
            sub = sub / 2;
            if sub <= duo_r {
                proof {
                    assert(div * (qe * pow2(s as nat) + (quo_hi + 1) * pow2(shift as nat)) == div
                        * (qe * pow2(s as nat) + quo_hi * pow2(shift as nat)) + div * pow2(
                        shift as nat,
                    )) by (nonlinear_arith);
                }
                duo_r -= sub;
                quo_hi += 1;
            }
        }
    } else {
        if duo_hi == 0 {
            // the divisor's high half is set but the dividend's is not
            proof {
                assert(duo < div);
                lemma_basic_div(duo as int, div as int);
                lemma_small_mod(duo as nat, div as nat);
            }
            return (0, duo);
        }
        // full-width binary long division, normalized via the high halves
        let div_lz = div_hi.leading_zeros();
        let duo_lz = duo_hi.leading_zeros();
        proof {
            lemma_lz_bounds_u32(div_hi);
            lemma_lz_bounds_u32(duo_hi);
            lemma_pow2_adds((31 - duo_lz) as nat, 32);
            lemma_pow2_adds((32 - duo_lz) as nat, 32);
            assert(pow2((31 - duo_lz) as nat) * pow2(32) <= duo_hi * pow2(32)) by (nonlinear_arith)
                requires
                    pow2((31 - duo_lz) as nat) <= duo_hi,
                    pow2(32) > 0,
            ;
            assert(duo_hi * pow2(32) + pow2(32) <= pow2((32 - duo_lz) as nat) * pow2(32))
                by (nonlinear_arith)
                requires
                    duo_hi + 1 <= pow2((32 - duo_lz) as nat),
                    pow2(32) > 0,
            ;
            lemma_pow2_adds((31 - div_lz) as nat, 32);
            lemma_pow2_adds((32 - div_lz) as nat, 32);
            assert(pow2((31 - div_lz) as nat) * pow2(32) <= div_hi * pow2(32)) by (nonlinear_arith)
                requires
                    pow2((31 - div_lz) as nat) <= div_hi,
                    pow2(32) > 0,
            ;
            assert(div_hi * pow2(32) + pow2(32) <= pow2((32 - div_lz) as nat) * pow2(32))
                by (nonlinear_arith)
                requires
                    div_hi + 1 <= pow2((32 - div_lz) as nat),
                    pow2(32) > 0,
            ;
            assert(pow2((63 - duo_lz) as nat) <= duo < pow2((64 - duo_lz) as nat));
            assert(pow2((63 - div_lz) as nat) <= div < pow2((64 - div_lz) as nat));
        }
        if div_lz < duo_lz {
            // the divisor reaches a higher bit than the dividend
            proof {
                if 64 - duo_lz < 63 - div_lz {
                    lemma_pow2_strictly_increases((64 - duo_lz) as nat, (63 - div_lz) as nat);
                }
                lemma_basic_div(duo as int, div as int);
                lemma_small_mod(duo as nat, div as nat);
            }
            return (0, duo);
        }
        let mut shift = div_lz - duo_lz;
        proof {
            lemma_pow2_adds((64 - div_lz) as nat, shift as nat);
            assert(div * pow2(shift as nat) < pow2((64 - div_lz) as nat) * pow2(shift as nat))
                by (nonlinear_arith)
                requires
                    div < pow2((64 - div_lz) as nat),
                    pow2(shift as nat) > 0,
            ;
            if 64 - duo_lz < 64 {
                lemma_pow2_strictly_increases((64 - duo_lz) as nat, 64);
            }
            lemma_u64_shl_is_mul(div, shift as u64);
            lemma_pow2_adds((63 - div_lz) as nat, (shift + 1) as nat);
            assert(pow2((63 - div_lz) as nat) * pow2((shift + 1) as nat) <= div * pow2(
                (shift + 1) as nat,
            )) by (nonlinear_arith)
                requires
                    pow2((63 - div_lz) as nat) <= div,
                    pow2((shift + 1) as nat) > 0,
            ;
            lemma_pow2_adds(shift as nat, 1);
            assert(div * pow2((shift + 1) as nat) == 2 * (div * pow2(shift as nat)))
                by (nonlinear_arith)
                requires
                    pow2((shift + 1) as nat) == 2 * pow2(shift as nat),
            ;
        }
        proof {
            lemma_mul_basics(div as int);
            assert(div * (0 * pow2(shift as nat)) == 0) by (nonlinear_arith);
        }
        let mut duo_r = duo;
        let mut quo: u64 = 0;
        let mut sub: u64 = div << (shift as u64);
        loop
            invariant
                0x100000000 <= div,
                shift < 64,
                sub == div * pow2(shift as nat),
                duo == div * (quo * pow2(shift as nat)) + duo_r,
                duo_r < div * pow2((shift + 1) as nat),
            decreases shift,
        {
            proof {
                lemma_pow2_pos(shift as nat);
                lemma_mul_basics(div as int);
                lemma_pow2_adds(shift as nat, 1);
                assert(div * pow2((shift + 1) as nat) == 2 * (div * pow2(shift as nat)))
                    by (nonlinear_arith)
                    requires
                        pow2((shift + 1) as nat) == 2 * pow2(shift as nat),
                ;
            }
            if sub <= duo_r {
                proof {
                    assert(div * ((quo + 1) * pow2(shift as nat)) == div * (quo * pow2(
                        shift as nat,
                    )) + div * pow2(shift as nat)) by (nonlinear_arith);
                    assert((quo + 1) * pow2(shift as nat) <= div * ((quo + 1) * pow2(
                        shift as nat,
                    ))) by (nonlinear_arith)
                        requires
                            1 <= div,
                            0 <= quo + 1,
                            0 < pow2(shift as nat),
                    ;
                    assert(quo + 1 <= (quo + 1) * pow2(shift as nat)) by (nonlinear_arith)
                        requires
                            0 <= quo + 1,
                            0 < pow2(shift as nat),
                    ;
                }
                duo_r -= sub;
                quo += 1;
                if duo_r / 0x100000000 == 0 {
                    // what remains is below the divisor's high half
                    proof {
                        lemma_div_zero_iff(duo_r as int, 0x100000000);
                        lemma_u64_shl_is_mul(quo, shift as u64);
                        lemma_mul_is_commutative(quo as int, pow2(shift as nat) as int);
                        lemma_fundamental_div_mod_converse(
                            duo as int,
                            div as int,
                            quo as int * pow2(shift as nat) as int,
                            duo_r as int,
                        );
                    }
                    return (quo << (shift as u64), duo_r);
                }
            }
            if shift == 0 {
                proof {
                    lemma_mul_basics(quo as int);
                    lemma_mul_is_commutative(quo as int, div as int);
                    lemma_fundamental_div_mod_converse(
                        duo as int,
                        div as int,
                        quo as int,
                        duo_r as int,
                    );
                }
                return (quo, duo_r);
            }
            proof {
                lemma_pow2_adds((shift - 1) as nat, 1);
                assert(div * pow2(shift as nat) == 2 * (div * pow2((shift - 1) as nat)))
                    by (nonlinear_arith)
                    requires
                        pow2(shift as nat) == 2 * pow2((shift - 1) as nat),
                ;
                assert(div * (quo * pow2(shift as nat)) == div * ((2 * quo) * pow2(
                    (shift - 1) as nat,
                ))) by (nonlinear_arith)
                    requires
                        pow2(shift as nat) == 2 * pow2((shift - 1) as nat),
                ;
                assert((2 * quo) * pow2((shift - 1) as nat) <= div * ((2 * quo) * pow2(
                    (shift - 1) as nat,
                ))) by (nonlinear_arith)
                    requires
                        1 <= div,
                        0 <= 2 * quo,
                        0 < pow2((shift - 1) as nat),
                ;
                assert(2 * quo <= (2 * quo) * pow2((shift - 1) as nat)) by (nonlinear_arith)
                    requires
                        0 <= 2 * quo,
                        0 < pow2((shift - 1) as nat),
                ;
            }
            shift -= 1;
            sub = sub / 2;
            quo = quo * 2;
        }
    }
}

/// Computes the quotient and remainder of `duo` divided by `div` and
/// returns them as a tuple, truncating toward zero.
///
/// Sign handling delegates to the unsigned algorithm on the magnitudes and
/// restores signs afterwards; dividing the minimum value by minus one wraps
/// back to the minimum value with a zero remainder.
pub fn i64_div_rem_delegate(duo: i64, div: i64) -> (r: (i64, i64))
    requires
        div != 0,
    ensures
        duo == i64::MIN && div == -1 ==> r.0 == i64::MIN && r.1 == 0,
        !(duo == i64::MIN && div == -1) ==> r.0 == div_trunc(duo as int, div as int) && r.1
            == rem_trunc(duo as int, div as int),
{
    let m = i64_magnitudes(duo, div);
    let t = u64_div_rem_delegate(m.0, m.1);
    i64_apply_signs(duo, div, t.0, t.1)
}

/// Computes the quotient and remainder of `duo` divided by `div` and
/// returns them as a tuple.
///
/// This uses binary shift long division, but if it can delegates work to a
/// smaller division: directly when the operands fit in one half, by
/// schoolbook short division when the divisor fits in a quarter, and by
/// finishing with a half division once the running remainder fits.
#[verifier::loop_isolation(false)]
#[verifier::rlimit(90)]
pub fn u128_div_rem_delegate(duo: u128, div: u128) -> (r: (u128, u128))
    requires
        div != 0,
    ensures
        r.0 == duo as int / div as int,
        r.1 == duo as int % div as int,
{
    proof {
        lemma2_to64();
        lemma2_to64_rest();
        lemma_pow2_above64();
    }
    let duo_lo = (duo % 0x10000000000000000) as u64;
    let duo_hi = (duo / 0x10000000000000000) as u64;
    let div_lo = (div % 0x10000000000000000) as u64;
    let div_hi = (div / 0x10000000000000000) as u64;
    proof {
        lemma_fundamental_div_mod(duo as int, 0x10000000000000000);
        lemma_fundamental_div_mod(div as int, 0x10000000000000000);
        lemma_mod_bound(duo as int, 0x10000000000000000);
        lemma_mod_bound(div as int, 0x10000000000000000);
    }
    if div_hi == 0 {
        if duo_hi == 0 {
            // both operands fit in one half: delegate to smaller division
            let t = u64_by_u64_div_rem(duo_lo, div_lo);
            return (t.0 as u128, t.1 as u128);
        }
        if div_lo < 0x100000000 {
            // short division of the dividend's three quarter-width limbs by
            // the quarter-sized divisor, carrying remainders downward
            let div_0 = div_lo;
            let t3 = u64_by_u64_div_rem(duo_hi, div_0);
            let duo_mid = ((duo / 0x100000000) % 0x100000000) as u64 + t3.1 * 0x100000000;
            let t2 = u64_by_u64_div_rem(duo_mid, div_0);
            let duo_low = (duo % 0x100000000) as u64 + t2.1 * 0x100000000;
            let t1 = u64_by_u64_div_rem(duo_low, div_0);
            proof {
                lemma_mod_breakdown(duo as int, 0x100000000, 0x100000000);
                lemma_fundamental_div_mod(duo_hi as int, div_0 as int);
                lemma_mod_bound(duo_hi as int, div_0 as int);
                lemma_fundamental_div_mod(duo_mid as int, div_0 as int);
                lemma_mod_bound(duo_mid as int, div_0 as int);
                lemma_fundamental_div_mod(duo_low as int, div_0 as int);
                lemma_mod_bound(duo_low as int, div_0 as int);
                lemma_mod_bound(duo as int, 0x100000000);
                lemma_mod_bound((duo as int / 0x100000000) as int, 0x100000000);
                lemma_short_division(
                    duo_hi as int,
                    (duo as int / 0x100000000) % 0x100000000,
                    duo as int % 0x100000000,
                    div_0 as int,
                    0x100000000,
                    t3.0 as int,
                    t3.1 as int,
                    t2.0 as int,
                    t2.1 as int,
                    t1.0 as int,
                    t1.1 as int,
                );
                lemma_div_nonincreasing(duo_hi as int, div_0 as int);
                lemma_fundamental_div_mod_converse(
                    duo as int,
                    div as int,
                    ((t3.0 as int * 0x100000000) + t2.0 as int) * 0x100000000 + t1.0 as int,
                    t1.1 as int,
                );
            }
            return (
                (t1.0 as u128) + (t2.0 as u128) * 0x100000000 + (t3.0 as u128) * 0x10000000000000000,
                t1.1 as u128,
            );
        }
        // binary long division of the wide dividend by the one-limb divisor
        let div_lz = div_lo.leading_zeros() + 64;
        let duo_lz = duo_hi.leading_zeros();
        proof {
            lemma_lz_bounds_u64(div_lo);
            lemma_lz_bounds_u64(duo_hi);
            // value range of duo from its high half
            lemma_pow2_adds((63 - duo_lz) as nat, 64);
            lemma_pow2_adds((64 - duo_lz) as nat, 64);
            assert(pow2((63 - duo_lz) as nat) * pow2(64) <= duo_hi * pow2(64)) by (nonlinear_arith)
                requires
                    pow2((63 - duo_lz) as nat) <= duo_hi,
                    pow2(64) > 0,
            ;
            assert(duo_hi * pow2(64) + pow2(64) <= pow2((64 - duo_lz) as nat) * pow2(64))
                by (nonlinear_arith)
                requires
                    duo_hi + 1 <= pow2((64 - duo_lz) as nat),
                    pow2(64) > 0,
            ;
            assert(pow2((127 - duo_lz) as nat) <= duo < pow2((128 - duo_lz) as nat));
        }
        let mut shift = div_lz - duo_lz;
        let ghost s = shift;
        proof {
            // div << shift stays within the dividend's bit range
            lemma_pow2_pos(shift as nat);
            lemma_pow2_adds((128 - div_lz) as nat, shift as nat);
            assert(div * pow2(shift as nat) < pow2((128 - div_lz) as nat) * pow2(shift as nat))
                by (nonlinear_arith)
                requires
                    div < pow2((128 - div_lz) as nat),
                    pow2(shift as nat) > 0,
            ;
            if 128 - duo_lz < 128 {
                lemma_pow2_strictly_increases((128 - duo_lz) as nat, 128);
            }
            lemma_shl_is_mul_u128(div_lo as u128, shift as u128);
            lemma_pow2_adds((127 - div_lz) as nat, (shift + 1) as nat);
            assert(pow2((127 - div_lz) as nat) * pow2((shift + 1) as nat) <= div * pow2(
                (shift + 1) as nat,
            )) by (nonlinear_arith)
                requires
                    pow2((127 - div_lz) as nat) <= div,
                    pow2((shift + 1) as nat) > 0,
            ;
            lemma_pow2_adds(shift as nat, 1);
            assert(div * pow2((shift + 1) as nat) == 2 * (div * pow2(shift as nat)))
                by (nonlinear_arith)
                requires
                    pow2((shift + 1) as nat) == 2 * pow2(shift as nat),
            ;
        }
        let mut sub: u128 = (div_lo as u128) << (shift as u128);
        let initial_shift = shift;
        let mut duo_r = duo;
        let quo_edge = if sub <= duo_r {
            duo_r -= sub;
            true
        } else {
            false
        };
        let ghost qe: int = if quo_edge {
            1
        } else {
            0
        };
        let mut quo_hi: u128 = 0;
        proof {
            lemma_pow2_pos(s as nat);
            lemma_mul_basics(pow2(s as nat) as int);
            lemma_mul_basics(div as int);
            assert(div * (qe * pow2(s as nat) + 0 * pow2(s as nat)) == qe * (div * pow2(
                s as nat,
            ))) by (nonlinear_arith);
        }
        loop
            invariant
                0x100000000 <= div < 0x10000000000000000,
                shift <= s < 128,
                sub == div * pow2(shift as nat),
                duo == div * (qe * pow2(s as nat) + quo_hi * pow2(shift as nat)) + duo_r,
                duo_r < div * pow2(shift as nat),
                quo_hi * pow2(shift as nat) < pow2(s as nat),
            decreases shift,
        {
            proof {
                lemma_pow2_pos(shift as nat);
                lemma_mul_basics(div as int);
                if shift == 0 {
                    lemma_div_zero_iff(duo_r as int, 0x10000000000000000);
                }
            }
            let duo_hi2 = duo_r / 0x10000000000000000;
            if duo_hi2 == 0 || shift == 0 {
                proof {
                    lemma_div_zero_iff(duo_r as int, 0x10000000000000000);
                }
                let duo_small = (duo_r % 0x10000000000000000) as u64;
                let t = u64_by_u64_div_rem(duo_small, div_lo);
                proof {
                    lemma_fundamental_div_mod(duo_small as int, div as int);
                    lemma_mod_bound(duo_small as int, div as int);
                    let q = qe * pow2(s as nat) + quo_hi * pow2(shift as nat) + t.0;
                    assert(duo == div * q + t.1) by (nonlinear_arith)
                        requires
                            duo == div * (qe * pow2(s as nat) + quo_hi * pow2(shift as nat))
                                + duo_r,
                            duo_r == div * (t.0 as int) + t.1,
                            q == qe * pow2(s as nat) + quo_hi * pow2(shift as nat) + t.0,
                    ;
                    assert(q <= div * q) by (nonlinear_arith)
                        requires
                            1 <= div,
                            0 <= q,
                    ;
                    lemma_fundamental_div_mod_converse(duo as int, div as int, q, t.1 as int);
                    lemma_shl_is_mul_u128(quo_hi, shift as u128);
                    assert(pow2(s as nat) <= div * pow2(s as nat)) by (nonlinear_arith)
                        requires
                            1 <= div,
                            0 < pow2(s as nat),
                    ;
                    lemma_shl_is_mul_u128(1u128, initial_shift as u128);
                    lemma_mul_basics(pow2(s as nat) as int);
                    lemma_mul_is_commutative(1, pow2(s as nat) as int);
                }
                let edge: u128 = if quo_edge {
                    1u128 << (initial_shift as u128)
                } else {
                    0
                };
                return ((t.0 as u128) + (quo_hi << (shift as u128)) + edge, t.1 as u128);
            }
            proof {
                // the quotient bits gathered so far, shifted one more step,
                // still fit under the initial shift
                lemma_pow2_adds((shift - 1) as nat, 1);
                lemma_pow2_adds((s - shift) as nat, shift as nat);
                assert(quo_hi < pow2((s - shift) as nat)) by (nonlinear_arith)
                    requires
                        quo_hi * pow2(shift as nat) < pow2(s as nat),
                        pow2(s as nat) == pow2((s - shift) as nat) * pow2(shift as nat),
                        pow2(shift as nat) > 0,
                        0 <= quo_hi,
                ;
                assert((2 * quo_hi + 1) * pow2((shift - 1) as nat) < pow2(s as nat))
                    by (nonlinear_arith)
                    requires
                        quo_hi + 1 <= pow2((s - shift) as nat),
                        pow2(s as nat) == pow2((s - shift) as nat) * pow2(shift as nat),
                        pow2(shift as nat) == 2 * pow2((shift - 1) as nat),
                        pow2((shift - 1) as nat) > 0,
                ;
                assert((2 * quo_hi) * pow2((shift - 1) as nat) < pow2(s as nat))
                    by (nonlinear_arith)
                    requires
                        (2 * quo_hi + 1) * pow2((shift - 1) as nat) < pow2(s as nat),
                        pow2((shift - 1) as nat) > 0,
                        0 <= quo_hi,
                ;
                assert(quo_hi <= quo_hi * pow2(shift as nat)) by (nonlinear_arith)
                    requires
                        0 <= quo_hi,
                        0 < pow2(shift as nat),
                ;
                if (s as nat) < 127 {
                    lemma_pow2_strictly_increases(s as nat, 127);
                }
                lemma_pow2_adds(127, 1);
                assert(div * pow2(shift as nat) == 2 * (div * pow2((shift - 1) as nat)))
                    by (nonlinear_arith)
                    requires
                        pow2(shift as nat) == 2 * pow2((shift - 1) as nat),
                ;
                assert(pow2((s - shift) as nat) * pow2(shift as nat) <= pow2(s as nat));
                if s < 128 {
                    lemma_pow2_strictly_increases(s as nat, 128);
                }
                assert(duo == div * (qe * pow2(s as nat) + (2 * quo_hi) * pow2(
                    (shift - 1) as nat,
                )) + duo_r) by (nonlinear_arith)
                    requires
                        duo == div * (qe * pow2(s as nat) + quo_hi * pow2(shift as nat)) + duo_r,
                        pow2(shift as nat) == 2 * pow2((shift - 1) as nat),
                ;
            }
            shift -= 1;
            quo_hi = quo_hi * 2;
            sub = sub / 2;
            if sub <= duo_r {
                proof {
                    assert(div * (qe * pow2(s as nat) + (quo_hi + 1) * pow2(shift as nat)) == div
                        * (qe * pow2(s as nat) + quo_hi * pow2(shift as nat)) + div * pow2(
                        shift as nat,
                    )) by (nonlinear_arith);
                }
                duo_r -= sub;
                quo_hi += 1;
            }
        }
    } else {
        if duo_hi == 0 {
            // the divisor's high half is set but the dividend's is not
            proof {
                assert(duo < div);
                lemma_basic_div(duo as int, div as int);
                lemma_small_mod(duo as nat, div as nat);
            }
            return (0, duo);
        }
        // full-width binary long division, normalized via the high halves
        let div_lz = div_hi.leading_zeros();
        let duo_lz = duo_hi.leading_zeros();
        proof {
            lemma_lz_bounds_u64(div_hi);
            lemma_lz_bounds_u64(duo_hi);
            lemma_pow2_adds((63 - duo_lz) as nat, 64);
            lemma_pow2_adds((64 - duo_lz) as nat, 64);
            assert(pow2((63 - duo_lz) as nat) * pow2(64) <= duo_hi * pow2(64)) by (nonlinear_arith)
                requires
                    pow2((63 - duo_lz) as nat) <= duo_hi,
                    pow2(64) > 0,
            ;
            assert(duo_hi * pow2(64) + pow2(64) <= pow2((64 - duo_lz) as nat) * pow2(64))
                by (nonlinear_arith)
                requires
                    duo_hi + 1 <= pow2((64 - duo_lz) as nat),
                    pow2(64) > 0,
            ;
            lemma_pow2_adds((63 - div_lz) as nat, 64);
            lemma_pow2_adds((64 - div_lz) as nat, 64);
            assert(pow2((63 - div_lz) as nat) * pow2(64) <= div_hi * pow2(64)) by (nonlinear_arith)
                requires
                    pow2((63 - div_lz) as nat) <= div_hi,
                    pow2(64) > 0,
            ;
            assert(div_hi * pow2(64) + pow2(64) <= pow2((64 - div_lz) as nat) * pow2(64))
                by (nonlinear_arith)
                requires
                    div_hi + 1 <= pow2((64 - div_lz) as nat),
                    pow2(64) > 0,
            ;
            assert(pow2((127 - duo_lz) as nat) <= duo < pow2((128 - duo_lz) as nat));
            assert(pow2((127 - div_lz) as nat) <= div < pow2((128 - div_lz) as nat));
        }
        if div_lz < duo_lz {
            // the divisor reaches a higher bit than the dividend
            proof {
                if 128 - duo_lz < 127 - div_lz {
                    lemma_pow2_strictly_increases((128 - duo_lz) as nat, (127 - div_lz) as nat);
                }
                lemma_basic_div(duo as int, div as int);
                lemma_small_mod(duo as nat, div as nat);
            }
            return (0, duo);
        }
        let mut shift = div_lz - duo_lz;
        proof {
            lemma_pow2_adds((128 - div_lz) as nat, shift as nat);
            assert(div * pow2(shift as nat) < pow2((128 - div_lz) as nat) * pow2(shift as nat))
                by (nonlinear_arith)
                requires
                    div < pow2((128 - div_lz) as nat),
                    pow2(shift as nat) > 0,
            ;
            if 128 - duo_lz < 128 {
                lemma_pow2_strictly_increases((128 - duo_lz) as nat, 128);
            }
            lemma_pow2_pos(shift as nat);
            lemma_shl_is_mul_u128(div, shift as u128);
            lemma_pow2_adds((127 - div_lz) as nat, (shift + 1) as nat);
            assert(pow2((127 - div_lz) as nat) * pow2((shift + 1) as nat) <= div * pow2(
                (shift + 1) as nat,
            )) by (nonlinear_arith)
                requires
                    pow2((127 - div_lz) as nat) <= div,
                    pow2((shift + 1) as nat) > 0,
            ;
            lemma_pow2_adds(shift as nat, 1);
            assert(div * pow2((shift + 1) as nat) == 2 * (div * pow2(shift as nat)))
                by (nonlinear_arith)
                requires
                    pow2((shift + 1) as nat) == 2 * pow2(shift as nat),
            ;
        }
        proof {
            lemma_mul_basics(div as int);
            assert(div * (0 * pow2(shift as nat)) == 0) by (nonlinear_arith);
        }
        let mut duo_r = duo;
        let mut quo: u128 = 0;
        let mut sub: u128 = div << (shift as u128);
        loop
            invariant
                0x10000000000000000 <= div,
                shift < 128,
                sub == div * pow2(shift as nat),
                duo == div * (quo * pow2(shift as nat)) + duo_r,
                duo_r < div * pow2((shift + 1) as nat),
            decreases shift,
        {
            proof {
                lemma_pow2_pos(shift as nat);
                lemma_mul_basics(div as int);
                lemma_pow2_adds(shift as nat, 1);
                assert(div * pow2((shift + 1) as nat) == 2 * (div * pow2(shift as nat)))
                    by (nonlinear_arith)
                    requires
                        pow2((shift + 1) as nat) == 2 * pow2(shift as nat),
                ;
            }
            if sub <= duo_r {
                proof {
                    assert(div * ((quo + 1) * pow2(shift as nat)) == div * (quo * pow2(
                        shift as nat,
                    )) + div * pow2(shift as nat)) by (nonlinear_arith);
                    assert((quo + 1) * pow2(shift as nat) <= div * ((quo + 1) * pow2(
                        shift as nat,
                    ))) by (nonlinear_arith)
                        requires
                            1 <= div,
                            0 <= quo + 1,
                            0 < pow2(shift as nat),
                    ;
                    assert(quo + 1 <= (quo + 1) * pow2(shift as nat)) by (nonlinear_arith)
                        requires
                            0 <= quo + 1,
                            0 < pow2(shift as nat),
                    ;
                }
                duo_r -= sub;
                quo += 1;
                if duo_r / 0x10000000000000000 == 0 {
                    // what remains is below the divisor's high half
                    proof {
                        lemma_div_zero_iff(duo_r as int, 0x10000000000000000);
                        lemma_shl_is_mul_u128(quo, shift as u128);
                        lemma_mul_is_commutative(quo as int, pow2(shift as nat) as int);
                        lemma_fundamental_div_mod_converse(
                            duo as int,
                            div as int,
                            quo as int * pow2(shift as nat) as int,
                            duo_r as int,
                        );
                    }
                    return (quo << (shift as u128), duo_r);
                }
            }
            if shift == 0 {
                proof {
                    lemma_mul_basics(quo as int);
                    lemma_mul_is_commutative(quo as int, div as int);
                    lemma_fundamental_div_mod_converse(
                        duo as int,
                        div as int,
                        quo as int,
                        duo_r as int,
                    );
                }
                return (quo, duo_r);
            }
            proof {
                lemma_pow2_adds((shift - 1) as nat, 1);
                assert(div * pow2(shift as nat) == 2 * (div * pow2((shift - 1) as nat)))
                    by (nonlinear_arith)
                    requires
                        pow2(shift as nat) == 2 * pow2((shift - 1) as nat),
                ;
                assert(div * (quo * pow2(shift as nat)) == div * ((2 * quo) * pow2(
                    (shift - 1) as nat,
                ))) by (nonlinear_arith)
                    requires
                        pow2(shift as nat) == 2 * pow2((shift - 1) as nat),
                ;
                assert((2 * quo) * pow2((shift - 1) as nat) <= div * ((2 * quo) * pow2(
                    (shift - 1) as nat,
                ))) by (nonlinear_arith)
                    requires
                        1 <= div,
                        0 <= 2 * quo,
                        0 < pow2((shift - 1) as nat),
                ;
                assert(2 * quo <= (2 * quo) * pow2((shift - 1) as nat)) by (nonlinear_arith)
                    requires
                        0 <= 2 * quo,
                        0 < pow2((shift - 1) as nat),
                ;
            }
            shift -= 1;
            sub = sub / 2;
            quo = quo * 2;
        }
    }
}

/// Computes the quotient and remainder of `duo` divided by `div` and
/// returns them as a tuple, truncating toward zero.
///
/// Sign handling delegates to the unsigned algorithm on the magnitudes and
/// restores signs afterwards; dividing the minimum value by minus one wraps
/// back to the minimum value with a zero remainder.
pub fn i128_div_rem_delegate(duo: i128, div: i128) -> (r: (i128, i128))
    requires
        div != 0,
    ensures
        duo == i128::MIN && div == -1 ==> r.0 == i128::MIN && r.1 == 0,
        !(duo == i128::MIN && div == -1) ==> r.0 == div_trunc(duo as int, div as int) && r.1
            == rem_trunc(duo as int, div as int),
{
    let m = i128_magnitudes(duo, div);
    let t = u128_div_rem_delegate(m.0, m.1);
    i128_apply_signs(duo, div, t.0, t.1)
}

} // verus!
