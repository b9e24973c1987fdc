//! The trifecta algorithm: division of a width twice the largest hardware
//! division, choosing among three sub-algorithms. Small divisors go through
//! schoolbook short division, a dividend close in magnitude to the divisor
//! goes through the "mul or mul - 1" estimate, and the middle cases run an
//! undersubtracting long division whose partial quotients never overshoot.

use crate::bits::{
    lemma_div_bound_u, lemma_div_lower_u, lemma_div_mul_le, lemma_div_zero_iff,
    lemma_lz_bounds_u64, lemma_pow2_above64, lemma_shl_is_mul_u128,
};
use crate::implement::{
    carrying_mul_add_u32, carrying_mul_add_u64, carrying_mul_u32, carrying_mul_u64,
    u32_by_u32_div_rem, u64_by_u64_div_rem,
};
use crate::leading_zeros::u128_leading_zeros;
use crate::signed::{
    div_trunc, i128_apply_signs, i128_magnitudes, i64_apply_signs, i64_magnitudes, rem_trunc,
};
use crate::theory::{lemma_mul_or_mul_minus_one, lemma_short_division};
use vstd::arithmetic::div_mod::*;
use vstd::arithmetic::mul::*;
use vstd::arithmetic::power2::*;
use vstd::bits::*;
use vstd::prelude::*;

verus! {

/// The "mul or mul - 1" step: when the significant bits of `duo` and `div`
/// overlap closely, one half-width division of their top bits gives a
/// quotient estimate that is exact or one too high, and a widening multiply
/// back decides which; no further division is needed.
///
/// `shift` is the number of bits of `duo` below its top 64; the bounds
/// say that the shifted dividend has its top bit set and the shifted
/// divisor has at least 33 significant bits, no more than the dividend.
pub(crate) fn u128_mul_or_mul_minus_one(duo: u128, div: u128, shift: u32) -> (r: (u128, u128))
    requires
        shift <= 64,
        pow2((63 + shift) as nat) <= duo,
        duo < pow2((64 + shift) as nat),
        pow2((32 + shift) as nat) <= div,
        div < pow2((64 + shift) as nat),
    ensures
        r.0 == duo as int / div as int,
        r.1 == duo as int % div as int,
{
    proof {
        lemma2_to64();
        lemma2_to64_rest();
        lemma_pow2_above64();
        lemma_pow2_pos(shift as nat);
        lemma_u128_shr_is_div(duo, shift as u128);
        lemma_u128_shr_is_div(div, shift as u128);
        lemma_pow2_adds(63, shift as nat);
        lemma_pow2_adds(64, shift as nat);
        lemma_pow2_adds(32, shift as nat);
        lemma_div_lower_u(duo as int, pow2(shift as nat) as int, pow2(63) as int);
        lemma_div_bound_u(duo as int, pow2(shift as nat) as int, pow2(64) as int);
        lemma_div_lower_u(div as int, pow2(shift as nat) as int, pow2(32) as int);
        lemma_div_bound_u(div as int, pow2(shift as nat) as int, pow2(64) as int);
        lemma_div_pos_is_pos(duo as int, div as int);
    }
    let duo_sig_n = (duo >> (shift as u128)) as u64;
    let div_sig_n = (div >> (shift as u128)) as u64;
    let t = u64_by_u64_div_rem(duo_sig_n, div_sig_n);
    let mul = t.0;
    proof {
        // the estimate fits in 32 bits, so it is at most the shifted divisor
        assert(pow2(32) * pow2(32) <= div_sig_n * pow2(32)) by (nonlinear_arith)
            requires
                pow2(32) <= div_sig_n,
                0 < pow2(32),
        ;
        lemma_pow2_adds(32, 32);
        lemma_div_bound_u(duo_sig_n as int, div_sig_n as int, pow2(32) as int);
        lemma_mul_or_mul_minus_one(
            duo as int,
            div as int,
            pow2(shift as nat) as int,
            duo_sig_n as int,
            div_sig_n as int,
            mul as int,
        );
        lemma_fundamental_div_mod(duo as int, div as int);
        lemma_mod_bound(duo as int, div as int);
    }
    let ghost q = duo as int / div as int;
    // widening multiply of the estimate by the full divisor, watching for
    // overflow past the full width
    let div_lo = (div % 0x10000000000000000) as u64;
    let div_hi = (div / 0x10000000000000000) as u64;
    proof {
        lemma_fundamental_div_mod(div as int, pow2(64) as int);
        lemma_mod_bound(div as int, pow2(64) as int);
        lemma_div_bound_u(div as int, pow2(64) as int, pow2(64) as int);
        lemma_pow2_adds(64, 64);
    }
    let t_lo = carrying_mul_u64(mul, div_lo);
    let t_hi = carrying_mul_add_u64(mul, div_hi, t_lo.1);
    let tmp = (t_lo.0 as u128) + (t_hi.0 as u128) * 0x10000000000000000;
    let overflow = t_hi.1;
    proof {
        // reassemble: mul * div == tmp + overflow * pow2(128)
        assert(mul * div == mul * div_lo + (mul * div_hi) * pow2(64)) by (nonlinear_arith)
            requires
                div == div_lo + div_hi * pow2(64),
        ;
        assert((t_hi.0 + t_hi.1 * pow2(64)) * pow2(64) == t_hi.0 * pow2(64) + t_hi.1 * (pow2(64)
            * pow2(64))) by (nonlinear_arith);
        assert(mul * div_lo + (mul * div_hi) * pow2(64) == t_lo.0 + t_hi.0 * pow2(64) + t_hi.1 * (
        pow2(64) * pow2(64))) by (nonlinear_arith)
            requires
                mul * div_lo == t_lo.0 + t_lo.1 * pow2(64),
                mul * div_hi + t_lo.1 == t_hi.0 + t_hi.1 * pow2(64),
        ;
        assert(mul * div == tmp + overflow * pow2(128));
        // the overflow is at most one: mul * div <= duo + div
        assert(mul * div <= (q + 1) * div) by (nonlinear_arith)
            requires
                mul <= q + 1,
                0 <= div,
        ;
        assert((q + 1) * div == q * div + div) by (nonlinear_arith);
        assert(q * div == div * q) by (nonlinear_arith);
        assert(overflow <= 1);
    }
    if overflow != 0 || duo < tmp {
        proof {
            // the product exceeds the dividend, so the estimate is one high
            assert(duo < mul * div);
            assert(q < mul) by (nonlinear_arith)
                requires
                    div * q <= duo,
                    duo < mul * div,
                    0 < div,
            ;
            assert(q == mul - 1);
            assert(duo % div == duo + div - (tmp + overflow * pow2(128))) by (nonlinear_arith)
                requires
                    duo % div == duo - div * q,
                    q == mul - 1,
                    mul * div == tmp + overflow * pow2(128),
                    q * div == div * q,
                    mul * div == q * div + div,
            ;
        }
        let rem = duo.wrapping_add(div.wrapping_sub(tmp));
        proof {
            assert(rem == duo % div);
        }
        return ((mul - 1) as u128, rem);
    } else {
        proof {
            assert(mul * div <= duo);
            assert(div * mul <= duo) by (nonlinear_arith)
                requires
                    mul * div <= duo,
            ;
            lemma_div_lower_u(duo as int, div as int, mul as int);
            assert(q == mul);
            assert(duo % div == duo - tmp) by (nonlinear_arith)
                requires
                    duo % div == duo - div * q,
                    q == mul,
                    mul * div == tmp + overflow * pow2(128),
                    overflow == 0,
                    mul * div == div * mul,
            ;
        }
        return (mul as u128, duo - tmp);
    }
}

/// Computes the quotient and remainder of `duo` divided by `div` and
/// returns them as a tuple.
///
/// This is optimized for division of two integers with bit widths twice as
/// large as the largest hardware integer division supported. It is called
/// the trifecta algorithm because it uses three main algorithms: short
/// division for small divisors, the "mul or mul - 1" algorithm for when the
/// quotient can be narrowed to one of two values by a single half-width
/// division, and an undersubtracting long division for the middle cases.
#[verifier::loop_isolation(false)]
#[verifier::rlimit(100)]
pub fn u128_div_rem_trifecta(duo: u128, div: u128) -> (r: (u128, u128))
    requires
        div != 0,
    ensures
        r.0 == duo as int / div as int,
        r.1 == duo as int % div as int,
{
    proof {
        lemma2_to64();
        lemma2_to64_rest();
        lemma_pow2_above64();
    }
    let div_lz = u128_leading_zeros(div);
    let mut duo_lz = u128_leading_zeros(duo);

    // quotient is 0 or 1 branch
    if div_lz <= duo_lz {
        if duo >= div {
            proof {
                if 128 - duo_lz < 128 - div_lz {
                    lemma_pow2_strictly_increases((128 - duo_lz) as nat, (128 - div_lz) as nat);
                }
                lemma_pow2_adds((127 - div_lz) as nat, 1);
                lemma_fundamental_div_mod_converse(duo as int, div as int, 1, duo - div);
            }
            return (1, duo - div);
        } else {
            proof {
                lemma_basic_div(duo as int, div as int);
                lemma_small_mod(duo as nat, div as nat);
            }
            return (0, duo);
        }
    }
    proof {
        // the divisor's significant bits end strictly below the dividend's
        if 128 - div_lz < 127 - duo_lz {
            lemma_pow2_strictly_increases((128 - div_lz) as nat, (127 - duo_lz) as nat);
        }
        assert(div < duo);
    }
    // half-width dividend branch
    if duo_lz >= 64 {
        proof {
            if 128 - duo_lz < 64 {
                lemma_pow2_strictly_increases((128 - duo_lz) as nat, 64);
            }
        }
        let t = u64_by_u64_div_rem(duo as u64, div as u64);
        return (t.0 as u128, t.1 as u128);
    }
    // short division branch
    if div_lz >= 96 {
        proof {
            if 128 - div_lz < 32 {
                lemma_pow2_strictly_increases((128 - div_lz) as nat, 32);
            }
            lemma_fundamental_div_mod(duo as int, pow2(64) as int);
            lemma_mod_bound(duo as int, pow2(64) as int);
            lemma_div_bound_u(duo as int, pow2(64) as int, pow2(64) as int);
            lemma_pow2_adds(64, 64);
            lemma_mod_breakdown(duo as int, 0x100000000, 0x100000000);
            lemma_mod_bound(duo as int, 0x100000000);
            lemma_mod_bound((duo as int / 0x100000000) as int, 0x100000000);
        }
        let div_0 = div as u64;
        let duo_hi = (duo / 0x10000000000000000) as u64;
        let t3 = u64_by_u64_div_rem(duo_hi, div_0);
        proof {
            lemma_fundamental_div_mod(duo_hi as int, div_0 as int);
            lemma_mod_bound(duo_hi as int, div_0 as int);
        }
        let duo_mid = ((duo / 0x100000000) % 0x100000000) as u64 + t3.1 * 0x100000000;
        let t2 = u64_by_u64_div_rem(duo_mid, div_0);
        proof {
            lemma_fundamental_div_mod(duo_mid as int, div_0 as int);
            lemma_mod_bound(duo_mid as int, div_0 as int);
        }
        let duo_low = (duo % 0x100000000) as u64 + t2.1 * 0x100000000;
        let t1 = u64_by_u64_div_rem(duo_low, div_0);
        proof {
            lemma_fundamental_div_mod(duo_low as int, div_0 as int);
            lemma_mod_bound(duo_low as int, div_0 as int);
            lemma_short_division(
                duo_hi as int,
                (duo as int / 0x100000000) % 0x100000000,
                duo as int % 0x100000000,
                div_0 as int,
                0x100000000,
                t3.0 as int,
                t3.1 as int,
                t2.0 as int,
                t2.1 as int,
                t1.0 as int,
                t1.1 as int,
            );
            lemma_div_nonincreasing(duo_hi as int, div_0 as int);
            lemma_fundamental_div_mod_converse(
                duo as int,
                div as int,
                ((t3.0 as int * 0x100000000) + t2.0 as int) * 0x100000000 + t1.0 as int,
                t1.1 as int,
            );
        }
        return (
            (t1.0 as u128) + (t2.0 as u128) * 0x100000000 + (t3.0 as u128)
                * 0x10000000000000000,
            t1.1 as u128,
        );
    }
    // "mul or mul - 1" branch
    let rel_leading_sb = div_lz - duo_lz;
    if rel_leading_sb < 32 {
        let shift = 64 - duo_lz;
        proof {
            if 127 - div_lz > 32 + shift {
                lemma_pow2_strictly_increases((32 + shift) as nat, (127 - div_lz) as nat);
            }
            if 128 - div_lz < 64 + shift {
                lemma_pow2_strictly_increases((128 - div_lz) as nat, (64 + shift) as nat);
            }
        }
        return u128_mul_or_mul_minus_one(duo, div, shift);
    }
    // undersubtracting long division
    let mut duo_r = duo;
    let div_lesser_places = 96 - div_lz;
    proof {
        lemma_u128_shr_is_div(div, div_lesser_places as u128);
        lemma_pow2_adds(31, div_lesser_places as nat);
        lemma_pow2_adds(32, div_lesser_places as nat);
        lemma_div_lower_u(div as int, pow2(div_lesser_places as nat) as int, pow2(31) as int);
        lemma_div_bound_u(div as int, pow2(div_lesser_places as nat) as int, pow2(32) as int);
        lemma_div_mul_le(div as int, pow2(div_lesser_places as nat) as int);
    }
    let div_sig_n_h = (div >> (div_lesser_places as u128)) as u32;
    let div_sig_n_h_add1 = (div_sig_n_h as u64) + 1;
    let mut quo: u128 = 0;
    proof {
        lemma_mul_basics(div as int);
    }
    loop
        invariant
            div != 0,
            duo_lz < 64,
            duo_lz < div_lz < 96,
            pow2((127 - div_lz) as nat) <= div < pow2((128 - div_lz) as nat),
            pow2((127 - duo_lz) as nat) <= duo_r < pow2((128 - duo_lz) as nat),
            div_lesser_places == 96 - div_lz,
            div_sig_n_h == div as int / pow2(div_lesser_places as nat) as int,
            div_sig_n_h_add1 == div_sig_n_h + 1,
            pow2(31) <= div_sig_n_h < pow2(32),
            div < div_sig_n_h_add1 * pow2(div_lesser_places as nat),
            duo == div * quo + duo_r,
        decreases duo_r,
    {
        let duo_lesser_places = 64 - duo_lz;
        proof {
            lemma_u128_shr_is_div(duo_r, duo_lesser_places as u128);
            lemma_pow2_adds(63, duo_lesser_places as nat);
            lemma_pow2_adds(64, duo_lesser_places as nat);
            lemma_div_lower_u(
                duo_r as int,
                pow2(duo_lesser_places as nat) as int,
                pow2(63) as int,
            );
            lemma_div_bound_u(
                duo_r as int,
                pow2(duo_lesser_places as nat) as int,
                pow2(64) as int,
            );
            lemma_pow2_pos(duo_lesser_places as nat);
            lemma_pow2_pos(div_lesser_places as nat);
        }
        let duo_sig_n = (duo_r >> (duo_lesser_places as u128)) as u64;
        if div_lesser_places <= duo_lesser_places {
            let t = u64_by_u64_div_rem(duo_sig_n, div_sig_n_h_add1);
            let mul128 = t.0 as u128;
            let place = duo_lesser_places - div_lesser_places;
            proof {
                let m = t.0 as int;
                let dsh1 = div_sig_n_h_add1 as int;
                let dlp = pow2(div_lesser_places as nat) as int;
                let plc = pow2(place as nat) as int;
                let dulp = pow2(duo_lesser_places as nat) as int;
                lemma_pow2_pos(place as nat);
                lemma_pow2_adds(div_lesser_places as nat, place as nat);
                lemma_div_mul_le(duo_sig_n as int, dsh1);
                lemma_div_mul_le(duo_r as int, dulp);
                // the undersized estimate never oversubtracts:
                // div * m * 2^place <= duo_sig_n * 2^dulp <= duo_r
                assert((dsh1 * (duo_sig_n as int / dsh1)) == (duo_sig_n as int / dsh1) * dsh1)
                    by (nonlinear_arith);
                assert(div * (m * plc) <= ((dsh1 * dlp - 1) * m) * plc) by (nonlinear_arith)
                    requires
                        div <= dsh1 * dlp - 1,
                        0 <= m,
                        0 < plc,
                ;
                assert(((dsh1 * dlp - 1) * m) * plc <= ((m * dsh1) * (dlp * plc)))
                    by (nonlinear_arith)
                    requires
                        0 <= m,
                        0 < plc,
                        0 < dlp,
                ;
                assert((m * dsh1) * (dlp * plc) <= duo_sig_n * (dlp * plc)) by (nonlinear_arith)
                    requires
                        m * dsh1 <= duo_sig_n,
                        0 < dlp * plc,
                ;
                assert(duo_sig_n * dulp <= duo_r) by (nonlinear_arith)
                    requires
                        duo_sig_n == duo_r as int / dulp,
                        (duo_r as int / dulp) * dulp <= duo_r,
                ;
                assert(div * (m * plc) <= duo_r);
                // the digit is at least one, so progress is made
                lemma_div_zero_iff(duo_sig_n as int, dsh1);
                assert(pow2(32) <= pow2(63)) by {
                    lemma_pow2_strictly_increases(32, 63);
                }
                assert(1 <= m);
                assert(1 * 1 <= m * plc) by (nonlinear_arith)
                    requires
                        1 <= m,
                        1 <= plc,
                ;
                assert(m * plc <= div * (m * plc)) by (nonlinear_arith)
                    requires
                        1 <= div,
                        0 <= m * plc,
                ;
                assert(1 <= div * (m * plc)) by (nonlinear_arith)
                    requires
                        1 <= div,
                        1 <= m * plc,
                ;
                // the quotient grows by the digit without overflowing
                assert(div * (quo + m * plc) == div * quo + div * (m * plc)) by (nonlinear_arith);
                assert(quo + m * plc <= div * (quo + m * plc)) by (nonlinear_arith)
                    requires
                        1 <= div,
                        0 <= quo + m * plc,
                ;
                assert(div * m <= div * (m * plc)) by (nonlinear_arith)
                    requires
                        1 <= plc,
                        0 <= div,
                        0 <= m,
                ;
                lemma_shl_is_mul_u128(mul128, place as u128);
            }
            let dm = div * mul128;
            proof {
                assert(dm * pow2(place as nat) == div * (mul128 * pow2(place as nat)))
                    by (nonlinear_arith)
                    requires
                        dm == div * mul128,
                ;
                lemma_shl_is_mul_u128(dm, place as u128);
            }
            quo = quo + (mul128 << (place as u128));
            duo_r = duo_r - (dm << (place as u128));
        } else {
            proof {
                if 127 - div_lz > 32 + duo_lesser_places {
                    lemma_pow2_strictly_increases(
                        (32 + duo_lesser_places) as nat,
                        (127 - div_lz) as nat,
                    );
                }
                if 128 - div_lz < 64 + duo_lesser_places {
                    lemma_pow2_strictly_increases(
                        (128 - div_lz) as nat,
                        (64 + duo_lesser_places) as nat,
                    );
                }
            }
            let t = u128_mul_or_mul_minus_one(duo_r, div, duo_lesser_places);
            proof {
                lemma_fundamental_div_mod(duo_r as int, div as int);
                lemma_mod_bound(duo_r as int, div as int);
                assert(div * (quo + t.0) == div * quo + div * (t.0 as int)) by (nonlinear_arith);
                assert(quo + t.0 <= div * (quo + t.0)) by (nonlinear_arith)
                    requires
                        1 <= div,
                        0 <= quo + t.0,
                ;
                assert(div * (quo + t.0) == (quo + t.0) * div) by (nonlinear_arith);
                lemma_fundamental_div_mod_converse(
                    duo as int,
                    div as int,
                    quo + t.0 as int,
                    t.1 as int,
                );
            }
            return (quo + t.0, t.1);
        }
        duo_lz = u128_leading_zeros(duo_r);
        if div_lz <= duo_lz {
            // at most one more copy of the divisor fits
            if div <= duo_r {
                proof {
                    if 128 - duo_lz < 128 - div_lz {
                        lemma_pow2_strictly_increases(
                            (128 - duo_lz) as nat,
                            (128 - div_lz) as nat,
                        );
                    }
                    lemma_pow2_adds((127 - div_lz) as nat, 1);
                    assert(div * (quo + 1) == div * quo + div) by (nonlinear_arith);
                    assert(quo + 1 <= div * (quo + 1)) by (nonlinear_arith)
                        requires
                            1 <= div,
                            0 <= quo + 1,
                    ;
                    assert(div * (quo + 1) == (quo + 1) * div) by (nonlinear_arith);
                    lemma_fundamental_div_mod_converse(
                        duo as int,
                        div as int,
                        quo + 1,
                        duo_r - div,
                    );
                }
                return (quo + 1, duo_r - div);
            } else {
                proof {
                    assert(quo <= div * quo) by (nonlinear_arith)
                        requires
                            1 <= div,
                            0 <= quo,
                    ;
                    assert(div * quo == quo * div) by (nonlinear_arith);
                    lemma_fundamental_div_mod_converse(duo as int, div as int, quo as int, duo_r as int);
                }
                return (quo, duo_r);
            }
        }
        if duo_lz >= 64 {
            // the rest fits in a single half-width division
            proof {
                if 128 - duo_lz < 64 {
                    lemma_pow2_strictly_increases((128 - duo_lz) as nat, 64);
                }
                if 128 - div_lz < 64 {
                    lemma_pow2_strictly_increases((128 - div_lz) as nat, 64);
                }
            }
            let t = u64_by_u64_div_rem(duo_r as u64, div as u64);
            proof {
                lemma_fundamental_div_mod(duo_r as int, div as int);
                lemma_mod_bound(duo_r as int, div as int);
                assert(div * (quo + t.0) == div * quo + div * (t.0 as int)) by (nonlinear_arith);
                assert(quo + t.0 <= div * (quo + t.0)) by (nonlinear_arith)
                    requires
                        1 <= div,
                        0 <= quo + t.0,
                ;
                assert(div * (quo + t.0) == (quo + t.0) * div) by (nonlinear_arith);
                lemma_fundamental_div_mod_converse(
                    duo as int,
                    div as int,
                    quo + t.0 as int,
                    t.1 as int,
                );
            }
            return (quo + (t.0 as u128), t.1 as u128);
        }
    }
}

/// Computes the quotient and remainder of `duo` divided by `div` and
/// returns them as a tuple, truncating toward zero.
///
/// Sign handling delegates to the unsigned algorithm on the magnitudes and
/// restores signs afterwards; dividing the minimum value by minus one wraps
/// back to the minimum value with a zero remainder.
pub fn i128_div_rem_trifecta(duo: i128, div: i128) -> (r: (i128, i128))
    requires
        div != 0,
    ensures
        duo == i128::MIN && div == -1 ==> r.0 == i128::MIN && r.1 == 0,
        !(duo == i128::MIN && div == -1) ==> r.0 == div_trunc(duo as int, div as int) && r.1
            == rem_trunc(duo as int, div as int),
{
    let m = i128_magnitudes(duo, div);
    let t = u128_div_rem_trifecta(m.0, m.1);
    i128_apply_signs(duo, div, t.0, t.1)
}

/// The "mul or mul - 1" step: when the significant bits of `duo` and `div`
/// overlap closely, one half-width division of their top bits gives a
/// quotient estimate that is exact or one too high, and a widening multiply
/// back decides which; no further division is needed.
///
/// `shift` is the number of bits of `duo` below its top 32; the bounds
/// say that the shifted dividend has its top bit set and the shifted
/// divisor has at least 17 significant bits, no more than the dividend.
pub(crate) fn u64_mul_or_mul_minus_one(duo: u64, div: u64, shift: u32) -> (r: (u64, u64))
    requires
        shift <= 32,
        pow2((31 + shift) as nat) <= duo,
        duo < pow2((32 + shift) as nat),
        pow2((16 + shift) as nat) <= div,
        div < pow2((32 + shift) as nat),
    ensures
        r.0 == duo as int / div as int,
        r.1 == duo as int % div as int,
{
    proof {
        lemma2_to64();
        lemma2_to64_rest();
        lemma_pow2_pos(shift as nat);
        lemma_u64_shr_is_div(duo, shift as u64);
        lemma_u64_shr_is_div(div, shift as u64);
        lemma_pow2_adds(31, shift as nat);
        lemma_pow2_adds(32, shift as nat);
        lemma_pow2_adds(16, shift as nat);
        lemma_div_lower_u(duo as int, pow2(shift as nat) as int, pow2(31) as int);
        lemma_div_bound_u(duo as int, pow2(shift as nat) as int, pow2(32) as int);
        lemma_div_lower_u(div as int, pow2(shift as nat) as int, pow2(16) as int);
        lemma_div_bound_u(div as int, pow2(shift as nat) as int, pow2(32) as int);
        lemma_div_pos_is_pos(duo as int, div as int);
    }
    let duo_sig_n = (duo >> (shift as u64)) as u32;
    let div_sig_n = (div >> (shift as u64)) as u32;
    let t = u32_by_u32_div_rem(duo_sig_n, div_sig_n);
    let mul = t.0;
    proof {
        // the estimate fits in 16 bits, so it is at most the shifted divisor
        assert(pow2(16) * pow2(16) <= div_sig_n * pow2(16)) by (nonlinear_arith)
            requires
                pow2(16) <= div_sig_n,
                0 < pow2(16),
        ;
        lemma_pow2_adds(16, 16);
        lemma_div_bound_u(duo_sig_n as int, div_sig_n as int, pow2(16) as int);
        lemma_mul_or_mul_minus_one(
            duo as int,
            div as int,
            pow2(shift as nat) as int,
            duo_sig_n as int,
            div_sig_n as int,
            mul as int,
        );
        lemma_fundamental_div_mod(duo as int, div as int);
        lemma_mod_bound(duo as int, div as int);
    }
    let ghost q = duo as int / div as int;
    // widening multiply of the estimate by the full divisor, watching for
    // overflow past the full width
    let div_lo = (div % 0x100000000) as u32;
    let div_hi = (div / 0x100000000) as u32;
    proof {
        lemma_fundamental_div_mod(div as int, pow2(32) as int);
        lemma_mod_bound(div as int, pow2(32) as int);
        lemma_div_bound_u(div as int, pow2(32) as int, pow2(32) as int);
        lemma_pow2_adds(32, 32);
    }
    let t_lo = carrying_mul_u32(mul, div_lo);
    let t_hi = carrying_mul_add_u32(mul, div_hi, t_lo.1);
    let tmp = (t_lo.0 as u64) + (t_hi.0 as u64) * 0x100000000;
    let overflow = t_hi.1;
    proof {
        // reassemble: mul * div == tmp + overflow * pow2(64)
        assert(mul * div == mul * div_lo + (mul * div_hi) * pow2(32)) by (nonlinear_arith)
            requires
                div == div_lo + div_hi * pow2(32),
        ;
        assert((t_hi.0 + t_hi.1 * pow2(32)) * pow2(32) == t_hi.0 * pow2(32) + t_hi.1 * (pow2(32)
            * pow2(32))) by (nonlinear_arith);
        assert(mul * div_lo + (mul * div_hi) * pow2(32) == t_lo.0 + t_hi.0 * pow2(32) + t_hi.1 * (
        pow2(32) * pow2(32))) by (nonlinear_arith)
            requires
                mul * div_lo == t_lo.0 + t_lo.1 * pow2(32),
                mul * div_hi + t_lo.1 == t_hi.0 + t_hi.1 * pow2(32),
        ;
        assert(mul * div == tmp + overflow * pow2(64));
        // the overflow is at most one: mul * div <= duo + div
        assert(mul * div <= (q + 1) * div) by (nonlinear_arith)
            requires
                mul <= q + 1,
                0 <= div,
        ;
        assert((q + 1) * div == q * div + div) by (nonlinear_arith);
        assert(q * div == div * q) by (nonlinear_arith);
        assert(overflow <= 1);
    }
    if overflow != 0 || duo < tmp {
        proof {
            // the product exceeds the dividend, so the estimate is one high
            assert(duo < mul * div);
            assert(q < mul) by (nonlinear_arith)
                requires
                    div * q <= duo,
                    duo < mul * div,
                    0 < div,
            ;
            assert(q == mul - 1);
            assert(duo % div == duo + div - (tmp + overflow * pow2(64))) by (nonlinear_arith)
                requires
                    duo % div == duo - div * q,
                    q == mul - 1,
                    mul * div == tmp + overflow * pow2(64),
                    q * div == div * q,
                    mul * div == q * div + div,
            ;
        }
        let rem = duo.wrapping_add(div.wrapping_sub(tmp));
        proof {
            assert(rem == duo % div);
        }
        return ((mul - 1) as u64, rem);
    } else {
        proof {
            assert(mul * div <= duo);
            assert(div * mul <= duo) by (nonlinear_arith)
                requires
                    mul * div <= duo,
            ;
            lemma_div_lower_u(duo as int, div as int, mul as int);
            assert(q == mul);
            assert(duo % div == duo - tmp) by (nonlinear_arith)
                requires
                    duo % div == duo - div * q,
                    q == mul,
                    mul * div == tmp + overflow * pow2(64),
                    overflow == 0,
                    mul * div == div * mul,
            ;
        }
        return (mul as u64, duo - tmp);
    }
}

/// Computes the quotient and remainder of `duo` divided by `div` and
/// returns them as a tuple.
///
/// This is optimized for division of two integers with bit widths twice as
/// large as the largest hardware integer division supported. It is called
/// the trifecta algorithm because it uses three main algorithms: short
/// division for small divisors, the "mul or mul - 1" algorithm for when the
/// quotient can be narrowed to one of two values by a single half-width
/// division, and an undersubtracting long division for the middle cases.
#[verifier::loop_isolation(false)]
#[verifier::rlimit(100)]
pub fn u64_div_rem_trifecta(duo: u64, div: u64) -> (r: (u64, u64))
    requires
        div != 0,
    ensures
        r.0 == duo as int / div as int,
        r.1 == duo as int % div as int,
{
    proof {
        lemma2_to64();
        lemma2_to64_rest();
        lemma_pow2_above64();
    }
    let div_lz = div.leading_zeros();
    let mut duo_lz = duo.leading_zeros();
    proof {
        lemma_lz_bounds_u64(div);
        lemma_lz_bounds_u64(duo);
    }

    // quotient is 0 or 1 branch
    if div_lz <= duo_lz {
        if duo >= div {
            proof {
                if 64 - duo_lz < 64 - div_lz {
                    lemma_pow2_strictly_increases((64 - duo_lz) as nat, (64 - div_lz) as nat);
                }
                lemma_pow2_adds((63 - div_lz) as nat, 1);
                lemma_fundamental_div_mod_converse(duo as int, div as int, 1, duo - div);
            }
            return (1, duo - div);
        } else {
            proof {
                lemma_basic_div(duo as int, div as int);
                lemma_small_mod(duo as nat, div as nat);
            }
            return (0, duo);
        }
    }
    proof {
        // the divisor's significant bits end strictly below the dividend's
        if 64 - div_lz < 63 - duo_lz {
            lemma_pow2_strictly_increases((64 - div_lz) as nat, (63 - duo_lz) as nat);
        }
        assert(div < duo);
    }
    // half-width dividend branch
    if duo_lz >= 32 {
        proof {
            if 64 - duo_lz < 64 {
                lemma_pow2_strictly_increases((64 - duo_lz) as nat, 64);
            }
        }
        let t = u32_by_u32_div_rem(duo as u32, div as u32);
        return (t.0 as u64, t.1 as u64);
    }
    // short division branch
    if div_lz >= 48 {
        proof {
            if 64 - div_lz < 32 {
                lemma_pow2_strictly_increases((64 - div_lz) as nat, 32);
            }
            lemma_fundamental_div_mod(duo as int, pow2(32) as int);
            lemma_mod_bound(duo as int, pow2(32) as int);
            lemma_div_bound_u(duo as int, pow2(32) as int, pow2(32) as int);
            lemma_pow2_adds(32, 32);
            lemma_mod_breakdown(duo as int, 0x10000, 0x10000);
            lemma_mod_bound(duo as int, 0x10000);
            lemma_mod_bound((duo as int / 0x10000) as int, 0x10000);
        }
        let div_0 = div as u32;
        let duo_hi = (duo / 0x100000000) as u32;
        let t3 = u32_by_u32_div_rem(duo_hi, div_0);
        proof {
            lemma_fundamental_div_mod(duo_hi as int, div_0 as int);
            lemma_mod_bound(duo_hi as int, div_0 as int);
        }
        let duo_mid = ((duo / 0x10000) % 0x10000) as u32 + t3.1 * 0x10000;
        let t2 = u32_by_u32_div_rem(duo_mid, div_0);
        proof {
            lemma_fundamental_div_mod(duo_mid as int, div_0 as int);
            lemma_mod_bound(duo_mid as int, div_0 as int);
        }
        let duo_low = (duo % 0x10000) as u32 + t2.1 * 0x10000;
        let t1 = u32_by_u32_div_rem(duo_low, div_0);
        proof {
            lemma_fundamental_div_mod(duo_low as int, div_0 as int);
            lemma_mod_bound(duo_low as int, div_0 as int);
            lemma_short_division(
                duo_hi as int,
                (duo as int / 0x10000) % 0x10000,
                duo as int % 0x10000,
                div_0 as int,
                0x10000,
                t3.0 as int,
                t3.1 as int,
                t2.0 as int,
                t2.1 as int,
                t1.0 as int,
                t1.1 as int,
            );
            lemma_div_nonincreasing(duo_hi as int, div_0 as int);
            lemma_fundamental_div_mod_converse(
                duo as int,
                div as int,
                ((t3.0 as int * 0x10000) + t2.0 as int) * 0x10000 + t1.0 as int,
                t1.1 as int,
            );
        }
        return (
            (t1.0 as u64) + (t2.0 as u64) * 0x10000 + (t3.0 as u64)
                * 0x100000000,
            t1.1 as u64,
        );
    }
    // "mul or mul - 1" branch
    let rel_leading_sb = div_lz - duo_lz;
    if rel_leading_sb < 16 {
        let shift = 32 - duo_lz;
        proof {
            if 63 - div_lz > 16 + shift {
                lemma_pow2_strictly_increases((16 + shift) as nat, (63 - div_lz) as nat);
            }
            if 64 - div_lz < 32 + shift {
                lemma_pow2_strictly_increases((64 - div_lz) as nat, (32 + shift) as nat);
            }
        }
        return u64_mul_or_mul_minus_one(duo, div, shift);
    }
    // undersubtracting long division
    let mut duo_r = duo;
    let div_lesser_places = 48 - div_lz;
    proof {
        lemma_u64_shr_is_div(div, div_lesser_places as u64);
        lemma_pow2_adds(15, div_lesser_places as nat);
        lemma_pow2_adds(16, div_lesser_places as nat);
        lemma_div_lower_u(div as int, pow2(div_lesser_places as nat) as int, pow2(15) as int);
        lemma_div_bound_u(div as int, pow2(div_lesser_places as nat) as int, pow2(16) as int);
        lemma_div_mul_le(div as int, pow2(div_lesser_places as nat) as int);
    }
    let div_sig_n_h = (div >> (div_lesser_places as u64)) as u16;
    let div_sig_n_h_add1 = (div_sig_n_h as u32) + 1;
    let mut quo: u64 = 0;
    proof {
        lemma_mul_basics(div as int);
    }
    loop
        invariant
            div != 0,
            duo_lz < 32,
            duo_lz < div_lz < 48,
            pow2((63 - div_lz) as nat) <= div < pow2((64 - div_lz) as nat),
            pow2((63 - duo_lz) as nat) <= duo_r < pow2((64 - duo_lz) as nat),
            div_lesser_places == 48 - div_lz,
            div_sig_n_h == div as int / pow2(div_lesser_places as nat) as int,
            div_sig_n_h_add1 == div_sig_n_h + 1,
            pow2(15) <= div_sig_n_h < pow2(16),
            div < div_sig_n_h_add1 * pow2(div_lesser_places as nat),
            duo == div * quo + duo_r,
        decreases duo_r,
    {
        let duo_lesser_places = 32 - duo_lz;
        proof {
            lemma_u64_shr_is_div(duo_r, duo_lesser_places as u64);
            lemma_pow2_adds(31, duo_lesser_places as nat);
            lemma_pow2_adds(32, duo_lesser_places as nat);
            lemma_div_lower_u(
                duo_r as int,
                pow2(duo_lesser_places as nat) as int,
                pow2(31) as int,
            );
            lemma_div_bound_u(
                duo_r as int,
                pow2(duo_lesser_places as nat) as int,
                pow2(32) as int,
            );
            lemma_pow2_pos(duo_lesser_places as nat);
            lemma_pow2_pos(div_lesser_places as nat);
        }
        let duo_sig_n = (duo_r >> (duo_lesser_places as u64)) as u32;
        if div_lesser_places <= duo_lesser_places {
            let t = u32_by_u32_div_rem(duo_sig_n, div_sig_n_h_add1);
            let mul128 = t.0 as u64;
            let place = duo_lesser_places - div_lesser_places;
            proof {
                let m = t.0 as int;
                let dsh1 = div_sig_n_h_add1 as int;
                let dlp = pow2(div_lesser_places as nat) as int;
                let plc = pow2(place as nat) as int;
                let dulp = pow2(duo_lesser_places as nat) as int;
                lemma_pow2_pos(place as nat);
                lemma_pow2_adds(div_lesser_places as nat, place as nat);
                lemma_div_mul_le(duo_sig_n as int, dsh1);
                lemma_div_mul_le(duo_r as int, dulp);
                // the undersized estimate never oversubtracts:
                // div * m * 2^place <= duo_sig_n * 2^dulp <= duo_r
                assert((dsh1 * (duo_sig_n as int / dsh1)) == (duo_sig_n as int / dsh1) * dsh1)
                    by (nonlinear_arith);
                assert(div * (m * plc) <= ((dsh1 * dlp - 1) * m) * plc) by (nonlinear_arith)
                    requires
                        div <= dsh1 * dlp - 1,
                        0 <= m,
                        0 < plc,
                ;
                assert(((dsh1 * dlp - 1) * m) * plc <= ((m * dsh1) * (dlp * plc)))
                    by (nonlinear_arith)
                    requires
                        0 <= m,
                        0 < plc,
                        0 < dlp,
                ;
                assert((m * dsh1) * (dlp * plc) <= duo_sig_n * (dlp * plc)) by (nonlinear_arith)
                    requires
                        m * dsh1 <= duo_sig_n,
                        0 < dlp * plc,
                ;
                assert(duo_sig_n * dulp <= duo_r) by (nonlinear_arith)
                    requires
                        duo_sig_n == duo_r as int / dulp,
                        (duo_r as int / dulp) * dulp <= duo_r,
                ;
                assert(div * (m * plc) <= duo_r);
                // the digit is at least one, so progress is made
                lemma_div_zero_iff(duo_sig_n as int, dsh1);
                assert(pow2(16) <= pow2(31)) by {
                    lemma_pow2_strictly_increases(16, 31);
                }
                assert(1 <= m);
                assert(1 * 1 <= m * plc) by (nonlinear_arith)
                    requires
                        1 <= m,
                        1 <= plc,
                ;
                assert(m * plc <= div * (m * plc)) by (nonlinear_arith)
                    requires
                        1 <= div,
                        0 <= m * plc,
                ;
                assert(1 <= div * (m * plc)) by (nonlinear_arith)
                    requires
                        1 <= div,
                        1 <= m * plc,
                ;
                // the quotient grows by the digit without overflowing
                assert(div * (quo + m * plc) == div * quo + div * (m * plc)) by (nonlinear_arith);
                assert(quo + m * plc <= div * (quo + m * plc)) by (nonlinear_arith)
                    requires
                        1 <= div,
                        0 <= quo + m * plc,
                ;
                assert(div * m <= div * (m * plc)) by (nonlinear_arith)
                    requires
                        1 <= plc,
                        0 <= div,
                        0 <= m,
                ;
                lemma_u64_shl_is_mul(mul128, place as u64);
            }
            let dm = div * mul128;
            proof {
                assert(dm * pow2(place as nat) == div * (mul128 * pow2(place as nat)))
                    by (nonlinear_arith)
                    requires
                        dm == div * mul128,
                ;
                lemma_u64_shl_is_mul(dm, place as u64);
            }
            quo = quo + (mul128 << (place as u64));
            duo_r = duo_r - (dm << (place as u64));
        } else {
            proof {
                if 63 - div_lz > 16 + duo_lesser_places {
                    lemma_pow2_strictly_increases(
                        (16 + duo_lesser_places) as nat,
                        (63 - div_lz) as nat,
                    );
                }
                if 64 - div_lz < 32 + duo_lesser_places {
                    lemma_pow2_strictly_increases(
                        (64 - div_lz) as nat,
                        (32 + duo_lesser_places) as nat,
                    );
                }
            }
            let t = u64_mul_or_mul_minus_one(duo_r, div, duo_lesser_places);
            proof {
                lemma_fundamental_div_mod(duo_r as int, div as int);
                lemma_mod_bound(duo_r as int, div as int);
                assert(div * (quo + t.0) == div * quo + div * (t.0 as int)) by (nonlinear_arith);
                assert(quo + t.0 <= div * (quo + t.0)) by (nonlinear_arith)
                    requires
                        1 <= div,
                        0 <= quo + t.0,
                ;
                assert(div * (quo + t.0) == (quo + t.0) * div) by (nonlinear_arith);
                lemma_fundamental_div_mod_converse(
                    duo as int,
                    div as int,
                    quo + t.0 as int,
                    t.1 as int,
                );
            }
            return (quo + t.0, t.1);
        }
        duo_lz = duo_r.leading_zeros();
        proof {
            lemma_lz_bounds_u64(duo_r);
        }
        if div_lz <= duo_lz {
            // at most one more copy of the divisor fits
            if div <= duo_r {
                proof {
                    if 64 - duo_lz < 64 - div_lz {
                        lemma_pow2_strictly_increases(
                            (64 - duo_lz) as nat,
                            (64 - div_lz) as nat,
                        );
                    }
                    lemma_pow2_adds((63 - div_lz) as nat, 1);
                    assert(div * (quo + 1) == div * quo + div) by (nonlinear_arith);
                    assert(quo + 1 <= div * (quo + 1)) by (nonlinear_arith)
                        requires
                            1 <= div,
                            0 <= quo + 1,
                    ;
                    assert(div * (quo + 1) == (quo + 1) * div) by (nonlinear_arith);
                    lemma_fundamental_div_mod_converse(
                        duo as int,
                        div as int,
                        quo + 1,
                        duo_r - div,
                    );
                }
                return (quo + 1, duo_r - div);
            } else {
                proof {
                    assert(quo <= div * quo) by (nonlinear_arith)
                        requires
                            1 <= div,
                            0 <= quo,
                    ;
                    assert(div * quo == quo * div) by (nonlinear_arith);
                    lemma_fundamental_div_mod_converse(duo as int, div as int, quo as int, duo_r as int);
                }
                return (quo, duo_r);
            }
        }
        if duo_lz >= 32 {
            // the rest fits in a single half-width division
            proof {
                if 64 - duo_lz < 64 {
                    lemma_pow2_strictly_increases((64 - duo_lz) as nat, 64);
                }
                if 64 - div_lz < 64 {
                    lemma_pow2_strictly_increases((64 - div_lz) as nat, 64);
                }
            }
            let t = u32_by_u32_div_rem(duo_r as u32, div as u32);
            proof {
                lemma_fundamental_div_mod(duo_r as int, div as int);
                lemma_mod_bound(duo_r as int, div as int);
                assert(div * (quo + t.0) == div * quo + div * (t.0 as int)) by (nonlinear_arith);
                assert(quo + t.0 <= div * (quo + t.0)) by (nonlinear_arith)
                    requires
                        1 <= div,
                        0 <= quo + t.0,
                ;
                assert(div * (quo + t.0) == (quo + t.0) * div) by (nonlinear_arith);
                lemma_fundamental_div_mod_converse(
                    duo as int,
                    div as int,
                    quo + t.0 as int,
                    t.1 as int,
                );
            }
            return (quo + (t.0 as u64), t.1 as u64);
        }
    }
}

/// Computes the quotient and remainder of `duo` divided by `div` and
/// returns them as a tuple, truncating toward zero.
///
/// Sign handling delegates to the unsigned algorithm on the magnitudes and
/// restores signs afterwards; dividing the minimum value by minus one wraps
/// back to the minimum value with a zero remainder.
pub fn i64_div_rem_trifecta(duo: i64, div: i64) -> (r: (i64, i64))
    requires
        div != 0,
    ensures
        duo == i64::MIN && div == -1 ==> r.0 == i64::MIN && r.1 == 0,
        !(duo == i64::MIN && div == -1) ==> r.0 == div_trunc(duo as int, div as int) && r.1
            == rem_trunc(duo as int, div as int),
{
    let m = i64_magnitudes(duo, div);
    let t = u64_div_rem_trifecta(m.0, m.1);
    i64_apply_signs(duo, div, t.0, t.1)
}

} // verus!
