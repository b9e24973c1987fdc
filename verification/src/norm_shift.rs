//! Normalization shift: how far a divisor must be shifted left so that its
//! most significant set bit lines up with the dividend's, as required before
//! a binary long division step.
//!
//! Two strategies are provided behind one interface: a direct computation
//! from the difference of leading-zero counts (for targets with a hardware
//! count instruction), and a doubling bisection search (for targets
//! without). Under full normalization both must return the unique shift `s`
//! with `div * pow2(s) <= duo < div * pow2(s + 1)`;
//! `lemma_normalization_shift_unique` states that uniqueness.

use crate::bits::{
    lemma_div_mul_le, lemma_lz_bounds_u16, lemma_lz_bounds_u32,
    lemma_lz_bounds_u64, lemma_lz_bounds_u8,
};
use vstd::arithmetic::div_mod::*;
use vstd::arithmetic::mul::*;
use vstd::arithmetic::power2::*;
use vstd::bits::*;
use vstd::prelude::*;
use vstd::std_specs::bits::{
    u16_leading_zeros, u32_leading_zeros, u64_leading_zeros, u8_leading_zeros,
};

verus! {

/// The shift that fully normalizes `div` against `duo` is unique: no two
/// different shifts can both place `div` in the window `(duo/2, duo]`
/// scaled by consecutive powers of two.
///
/// This is why the leading-zero-based strategy and the bisection strategy
/// must agree whenever full normalization is requested: both return a shift
/// satisfying the same pair of bounds.
pub proof fn lemma_normalization_shift_unique(duo: int, div: int, r1: nat, r2: nat)
    requires
        0 < div <= duo,
        div * pow2(r1) <= duo < div * pow2((r1 + 1) as nat),
        div * pow2(r2) <= duo < div * pow2((r2 + 1) as nat),
    ensures
        r1 == r2,
{
    if r1 < r2 {
        lemma_pow2_strictly_increases(r1, r2);
        if r1 + 1 < r2 {
            lemma_pow2_strictly_increases((r1 + 1) as nat, r2);
        }
        assert(div * pow2((r1 + 1) as nat) <= div * pow2(r2)) by (nonlinear_arith)
            requires
                0 < div,
                pow2((r1 + 1) as nat) <= pow2(r2),
        ;
    }
    if r2 < r1 {
        lemma_pow2_strictly_increases(r2, r1);
        if r2 + 1 < r1 {
            lemma_pow2_strictly_increases((r2 + 1) as nat, r1);
        }
        assert(div * pow2((r2 + 1) as nat) <= div * pow2(r1)) by (nonlinear_arith)
            requires
                0 < div,
                pow2((r2 + 1) as nat) <= pow2(r1),
        ;
    }
}

/// Finds the shift left that the divisor `div` would need to be normalized
/// for a binary long division step with the dividend `duo`. The edge cases
/// `div == 0` and `duo < div` must be handled before calling this.
///
/// With `full_normalization`, the shifted divisor is guaranteed not to
/// exceed `duo`; otherwise only the most significant bits are aligned.
/// `use_lz` selects the leading-zero-count strategy over the bisection
/// strategy; the bisection always fully normalizes.
pub fn u32_normalization_shift(duo: u32, div: u32, full_normalization: bool, use_lz: bool) -> (r: u32)
    requires
        div != 0,
        duo >= div,
    ensures
        r < 32,
        duo < div * pow2((r + 1) as nat),
        (full_normalization || !use_lz) ==> div * pow2(r as nat) <= duo,
        (use_lz && !full_normalization) ==> r == u32_leading_zeros(div) - u32_leading_zeros(duo),
{
    proof {
        lemma2_to64();
    }
    if use_lz {
        let duo_lz = duo.leading_zeros();
        let div_lz = div.leading_zeros();
        proof {
            lemma_lz_bounds_u32(duo);
            lemma_lz_bounds_u32(div);
            if div_lz < duo_lz {
                // then div's bit range lies entirely above duo's
                if 32 - duo_lz < 31 - div_lz {
                    lemma_pow2_strictly_increases((32 - duo_lz) as nat, (31 - div_lz) as nat);
                }
                assert(false);
            }
        }
        let mut shl = div_lz - duo_lz;
        proof {
            // div << shl stays in range: div * pow2(shl) < pow2(32 - duo_lz)
            lemma_pow2_adds((32 - div_lz) as nat, shl as nat);
            assert(div * pow2(shl as nat) < pow2((32 - div_lz) as nat) * pow2(shl as nat))
                by (nonlinear_arith)
                requires
                    div < pow2((32 - div_lz) as nat),
                    pow2(shl as nat) > 0,
            ;
            if 32 - duo_lz < 32 {
                lemma_pow2_strictly_increases((32 - duo_lz) as nat, 32);
            }
            lemma_u32_shl_is_mul(div, shl);
            // upper bound for the aligned shift: duo < div * pow2(shl + 1)
            lemma_pow2_adds((31 - div_lz) as nat, (shl + 1) as nat);
            assert(pow2((31 - div_lz) as nat) * pow2((shl + 1) as nat)
                <= div * pow2((shl + 1) as nat)) by (nonlinear_arith)
                requires
                    pow2((31 - div_lz) as nat) <= div,
                    pow2((shl + 1) as nat) > 0,
            ;
        }
        if full_normalization && duo < (div << shl) {
            proof {
                // at shift zero the divisor already fits below the dividend
                assert(div << shl == div * pow2(shl as nat));
                lemma_mul_basics(div as int);
                if shl == 0 {
                    assert(pow2(shl as nat) == 1);
                    assert(duo < div);
                    assert(false);
                }
                // after the decrement the divisor still reaches past duo/2
                lemma_pow2_adds((32 - div_lz) as nat, (shl - 1) as nat);
                assert(div * pow2((shl - 1) as nat)
                    < pow2((32 - div_lz) as nat) * pow2((shl - 1) as nat)) by (nonlinear_arith)
                    requires
                        div < pow2((32 - div_lz) as nat),
                        pow2((shl - 1) as nat) > 0,
                ;
            }
            shl -= 1;
        }
        shl
    } else {
        let mut test = duo;
        let mut shl: u32 = 0;
        let mut lvl: u32 = 16;
        proof {
            lemma_div_basics(duo as int);
            assert(duo < div * pow2(32)) by (nonlinear_arith)
                requires
                    1 <= div,
                    duo < pow2(32),
            ;
        }
        while lvl != 0
            invariant
                div != 0,
                duo >= div,
                lvl == 16 || lvl == 8 || lvl == 4 || lvl == 2 || lvl == 1 || lvl == 0,
                shl + 2 * lvl <= 32,
                test == duo as int / pow2(shl as nat) as int,
                div <= test,
                lvl != 0 ==> duo < div * pow2((shl + 2 * lvl) as nat),
                lvl == 0 ==> duo < div * pow2((shl + 1) as nat),
            decreases lvl,
        {
            proof {
                lemma_pow2_pos(shl as nat);
                lemma_pow2_pos(lvl as nat);
                lemma_u32_shr_is_div(test, lvl);
                lemma_div_denominator(duo as int, pow2(shl as nat) as int, pow2(lvl as nat) as int);
                lemma_pow2_adds(shl as nat, lvl as nat);
            }
            let tmp = test >> lvl;
            assert(tmp == duo as int / pow2((shl + lvl) as nat) as int);
            if div <= tmp {
                test = tmp;
                shl = shl + lvl;
            } else {
                proof {
                    lemma_div_mul_le(duo as int, pow2((shl + lvl) as nat) as int);
                    assert((tmp + 1) * pow2((shl + lvl) as nat) <= div * pow2((shl + lvl) as nat))
                        by (nonlinear_arith)
                        requires
                            tmp + 1 <= div,
                            pow2((shl + lvl) as nat) > 0,
                    ;
                }
            }
            lvl = lvl / 2;
        }
        proof {
            lemma_pow2_pos(shl as nat);
            lemma_div_mul_le(duo as int, pow2(shl as nat) as int);
            assert(div * pow2(shl as nat) <= (duo as int / pow2(shl as nat) as int) * pow2(
                shl as nat)) by (nonlinear_arith)
                requires
                    div <= duo as int / pow2(shl as nat) as int,
                    pow2(shl as nat) > 0,
            ;
            lemma2_to64();
            if shl >= 32 {
                if shl > 32 {
                    lemma_pow2_strictly_increases(32, shl as nat);
                }
                assert(pow2(32) <= pow2(shl as nat) <= div * pow2(shl as nat));
                assert(false);
            }
        }
        shl
    }
}

/// Finds the shift left that the divisor `div` would need to be normalized
/// for a binary long division step with the dividend `duo`. The edge cases
/// `div == 0` and `duo < div` must be handled before calling this.
///
/// With `full_normalization`, the shifted divisor is guaranteed not to
/// exceed `duo`; otherwise only the most significant bits are aligned.
/// `use_lz` selects the leading-zero-count strategy over the bisection
/// strategy; the bisection always fully normalizes.
pub fn u8_normalization_shift(duo: u8, div: u8, full_normalization: bool, use_lz: bool) -> (r: u32)
    requires
        div != 0,
        duo >= div,
    ensures
        r < 8,
        duo < div * pow2((r + 1) as nat),
        (full_normalization || !use_lz) ==> div * pow2(r as nat) <= duo,
        (use_lz && !full_normalization) ==> r == u8_leading_zeros(div) - u8_leading_zeros(duo),
{
    proof {
        lemma2_to64();
    }
    if use_lz {
        let duo_lz = duo.leading_zeros();
        let div_lz = div.leading_zeros();
        proof {
            lemma_lz_bounds_u8(duo);
            lemma_lz_bounds_u8(div);
            if div_lz < duo_lz {
                // then div's bit range lies entirely above duo's
                if 8 - duo_lz < 7 - div_lz {
                    lemma_pow2_strictly_increases((8 - duo_lz) as nat, (7 - div_lz) as nat);
                }
                assert(false);
            }
        }
        let mut shl = div_lz - duo_lz;
        proof {
            // div << shl stays in range: div * pow2(shl) < pow2(8 - duo_lz)
            lemma_pow2_adds((8 - div_lz) as nat, shl as nat);
            assert(div * pow2(shl as nat) < pow2((8 - div_lz) as nat) * pow2(shl as nat))
                by (nonlinear_arith)
                requires
                    div < pow2((8 - div_lz) as nat),
                    pow2(shl as nat) > 0,
            ;
            if 8 - duo_lz < 8 {
                lemma_pow2_strictly_increases((8 - duo_lz) as nat, 8);
            }
            lemma_u8_shl_is_mul(div, shl as u8);
            // upper bound for the aligned shift: duo < div * pow2(shl + 1)
            lemma_pow2_adds((7 - div_lz) as nat, (shl + 1) as nat);
            assert(pow2((7 - div_lz) as nat) * pow2((shl + 1) as nat)
                <= div * pow2((shl + 1) as nat)) by (nonlinear_arith)
                requires
                    pow2((7 - div_lz) as nat) <= div,
                    pow2((shl + 1) as nat) > 0,
            ;
        }
        if full_normalization && duo < (div << (shl as u8)) {
            proof {
                // at shift zero the divisor already fits below the dividend
                assert(div << (shl as u8) == div * pow2(shl as nat));
                lemma_mul_basics(div as int);
                if shl == 0 {
                    assert(pow2(shl as nat) == 1);
                    assert(duo < div);
                    assert(false);
                }
                // after the decrement the divisor still reaches past duo/2
                lemma_pow2_adds((8 - div_lz) as nat, (shl - 1) as nat);
                assert(div * pow2((shl - 1) as nat)
                    < pow2((8 - div_lz) as nat) * pow2((shl - 1) as nat)) by (nonlinear_arith)
                    requires
                        div < pow2((8 - div_lz) as nat),
                        pow2((shl - 1) as nat) > 0,
                ;
            }
            shl -= 1;
        }
        shl
    } else {
        let mut test = duo;
        let mut shl: u32 = 0;
        let mut lvl: u32 = 4;
        proof {
            lemma_div_basics(duo as int);
            assert(duo < div * pow2(8)) by (nonlinear_arith)
                requires
                    1 <= div,
                    duo < pow2(8),
            ;
        }
        while lvl != 0
            invariant
                div != 0,
                duo >= div,
                lvl == 4 || lvl == 2 || lvl == 1 || lvl == 0,
                shl + 2 * lvl <= 8,
                test == duo as int / pow2(shl as nat) as int,
                div <= test,
                lvl != 0 ==> duo < div * pow2((shl + 2 * lvl) as nat),
                lvl == 0 ==> duo < div * pow2((shl + 1) as nat),
            decreases lvl,
        {
            proof {
                lemma_pow2_pos(shl as nat);
                lemma_pow2_pos(lvl as nat);
                lemma_u8_shr_is_div(test, lvl as u8);
                lemma_div_denominator(duo as int, pow2(shl as nat) as int, pow2(lvl as nat) as int);
                lemma_pow2_adds(shl as nat, lvl as nat);
            }
            let tmp = test >> (lvl as u8);
            assert(tmp == duo as int / pow2((shl + lvl) as nat) as int);
            if div <= tmp {
                test = tmp;
                shl = shl + lvl;
            } else {
                proof {
                    lemma_div_mul_le(duo as int, pow2((shl + lvl) as nat) as int);
                    assert((tmp + 1) * pow2((shl + lvl) as nat) <= div * pow2((shl + lvl) as nat))
                        by (nonlinear_arith)
                        requires
                            tmp + 1 <= div,
                            pow2((shl + lvl) as nat) > 0,
                    ;
                }
            }
            lvl = lvl / 2;
        }
        proof {
            lemma_pow2_pos(shl as nat);
            lemma_div_mul_le(duo as int, pow2(shl as nat) as int);
            assert(div * pow2(shl as nat) <= (duo as int / pow2(shl as nat) as int) * pow2(
                shl as nat)) by (nonlinear_arith)
                requires
                    div <= duo as int / pow2(shl as nat) as int,
                    pow2(shl as nat) > 0,
            ;
            lemma2_to64();
            if shl >= 8 {
                if shl > 8 {
                    lemma_pow2_strictly_increases(8, shl as nat);
                }
                assert(pow2(8) <= pow2(shl as nat) <= div * pow2(shl as nat));
                assert(false);
            }
        }
        shl
    }
}

/// Finds the shift left that the divisor `div` would need to be normalized
/// for a binary long division step with the dividend `duo`. The edge cases
/// `div == 0` and `duo < div` must be handled before calling this.
///
/// With `full_normalization`, the shifted divisor is guaranteed not to
/// exceed `duo`; otherwise only the most significant bits are aligned.
/// `use_lz` selects the leading-zero-count strategy over the bisection
/// strategy; the bisection always fully normalizes.
pub fn u16_normalization_shift(duo: u16, div: u16, full_normalization: bool, use_lz: bool) -> (r: u32)
    requires
        div != 0,
        duo >= div,
    ensures
        r < 16,
        duo < div * pow2((r + 1) as nat),
        (full_normalization || !use_lz) ==> div * pow2(r as nat) <= duo,
        (use_lz && !full_normalization) ==> r == u16_leading_zeros(div) - u16_leading_zeros(duo),
{
    proof {
        lemma2_to64();
    }
    if use_lz {
        let duo_lz = duo.leading_zeros();
        let div_lz = div.leading_zeros();
        proof {
            lemma_lz_bounds_u16(duo);
            lemma_lz_bounds_u16(div);
            if div_lz < duo_lz {
                // then div's bit range lies entirely above duo's
                if 16 - duo_lz < 15 - div_lz {
                    lemma_pow2_strictly_increases((16 - duo_lz) as nat, (15 - div_lz) as nat);
                }
                assert(false);
            }
        }
        let mut shl = div_lz - duo_lz;
        proof {
            // div << shl stays in range: div * pow2(shl) < pow2(16 - duo_lz)
            lemma_pow2_adds((16 - div_lz) as nat, shl as nat);
            assert(div * pow2(shl as nat) < pow2((16 - div_lz) as nat) * pow2(shl as nat))
                by (nonlinear_arith)
                requires
                    div < pow2((16 - div_lz) as nat),
                    pow2(shl as nat) > 0,
            ;
            if 16 - duo_lz < 16 {
                lemma_pow2_strictly_increases((16 - duo_lz) as nat, 16);
            }
            lemma_u16_shl_is_mul(div, shl as u16);
            // upper bound for the aligned shift: duo < div * pow2(shl + 1)
            lemma_pow2_adds((15 - div_lz) as nat, (shl + 1) as nat);
            assert(pow2((15 - div_lz) as nat) * pow2((shl + 1) as nat)
                <= div * pow2((shl + 1) as nat)) by (nonlinear_arith)
                requires
                    pow2((15 - div_lz) as nat) <= div,
                    pow2((shl + 1) as nat) > 0,
            ;
        }
        if full_normalization && duo < (div << (shl as u16)) {
            proof {
                // at shift zero the divisor already fits below the dividend
                assert(div << (shl as u16) == div * pow2(shl as nat));
                lemma_mul_basics(div as int);
                if shl == 0 {
                    assert(pow2(shl as nat) == 1);
                    assert(duo < div);
                    assert(false);
                }
                // after the decrement the divisor still reaches past duo/2
                lemma_pow2_adds((16 - div_lz) as nat, (shl - 1) as nat);
                assert(div * pow2((shl - 1) as nat)
                    < pow2((16 - div_lz) as nat) * pow2((shl - 1) as nat)) by (nonlinear_arith)
                    requires
                        div < pow2((16 - div_lz) as nat),
                        pow2((shl - 1) as nat) > 0,
                ;
            }
            shl -= 1;
        }
        shl
    } else {
        let mut test = duo;
        let mut shl: u32 = 0;
        let mut lvl: u32 = 8;
        proof {
            lemma_div_basics(duo as int);
            assert(duo < div * pow2(16)) by (nonlinear_arith)
                requires
                    1 <= div,
                    duo < pow2(16),
            ;
        }
        while lvl != 0
            invariant
                div != 0,
                duo >= div,
                lvl == 8 || lvl == 4 || lvl == 2 || lvl == 1 || lvl == 0,
                shl + 2 * lvl <= 16,
                test == duo as int / pow2(shl as nat) as int,
                div <= test,
                lvl != 0 ==> duo < div * pow2((shl + 2 * lvl) as nat),
                lvl == 0 ==> duo < div * pow2((shl + 1) as nat),
            decreases lvl,
        {
            proof {
                lemma_pow2_pos(shl as nat);
                lemma_pow2_pos(lvl as nat);
                lemma_u16_shr_is_div(test, lvl as u16);
                lemma_div_denominator(duo as int, pow2(shl as nat) as int, pow2(lvl as nat) as int);
                lemma_pow2_adds(shl as nat, lvl as nat);
            }
            let tmp = test >> (lvl as u16);
            assert(tmp == duo as int / pow2((shl + lvl) as nat) as int);
            if div <= tmp {
                test = tmp;
                shl = shl + lvl;
            } else {
                proof {
                    lemma_div_mul_le(duo as int, pow2((shl + lvl) as nat) as int);
                    assert((tmp + 1) * pow2((shl + lvl) as nat) <= div * pow2((shl + lvl) as nat))
                        by (nonlinear_arith)
                        requires
                            tmp + 1 <= div,
                            pow2((shl + lvl) as nat) > 0,
                    ;
                }
            }
            lvl = lvl / 2;
        }
        proof {
            lemma_pow2_pos(shl as nat);
            lemma_div_mul_le(duo as int, pow2(shl as nat) as int);
            assert(div * pow2(shl as nat) <= (duo as int / pow2(shl as nat) as int) * pow2(
                shl as nat)) by (nonlinear_arith)
                requires
                    div <= duo as int / pow2(shl as nat) as int,
                    pow2(shl as nat) > 0,
            ;
            lemma2_to64();
            if shl >= 16 {
                if shl > 16 {
                    lemma_pow2_strictly_increases(16, shl as nat);
                }
                assert(pow2(16) <= pow2(shl as nat) <= div * pow2(shl as nat));
                assert(false);
            }
        }
        shl
    }
}

/// Finds the shift left that the divisor `div` would need to be normalized
/// for a binary long division step with the dividend `duo`. The edge cases
/// `div == 0` and `duo < div` must be handled before calling this.
///
/// With `full_normalization`, the shifted divisor is guaranteed not to
/// exceed `duo`; otherwise only the most significant bits are aligned.
/// `use_lz` selects the leading-zero-count strategy over the bisection
/// strategy; the bisection always fully normalizes.
pub fn u64_normalization_shift(duo: u64, div: u64, full_normalization: bool, use_lz: bool) -> (r: u32)
    requires
        div != 0,
        duo >= div,
    ensures
        r < 64,
        duo < div * pow2((r + 1) as nat),
        (full_normalization || !use_lz) ==> div * pow2(r as nat) <= duo,
        (use_lz && !full_normalization) ==> r == u64_leading_zeros(div) - u64_leading_zeros(duo),
{
    proof {
        lemma2_to64();
        lemma2_to64_rest();
    }
    if use_lz {
        let duo_lz = duo.leading_zeros();
        let div_lz = div.leading_zeros();
        proof {
            lemma_lz_bounds_u64(duo);
            lemma_lz_bounds_u64(div);
            if div_lz < duo_lz {
                // then div's bit range lies entirely above duo's
                if 64 - duo_lz < 63 - div_lz {
                    lemma_pow2_strictly_increases((64 - duo_lz) as nat, (63 - div_lz) as nat);
                }
                assert(false);
            }
        }
        let mut shl = div_lz - duo_lz;
        proof {
            // div << shl stays in range: div * pow2(shl) < pow2(64 - duo_lz)
            lemma_pow2_adds((64 - div_lz) as nat, shl as nat);
            assert(div * pow2(shl as nat) < pow2((64 - div_lz) as nat) * pow2(shl as nat))
                by (nonlinear_arith)
                requires
                    div < pow2((64 - div_lz) as nat),
                    pow2(shl as nat) > 0,
            ;
            if 64 - duo_lz < 64 {
                lemma_pow2_strictly_increases((64 - duo_lz) as nat, 64);
            }
            lemma_u64_shl_is_mul(div, shl as u64);
            // upper bound for the aligned shift: duo < div * pow2(shl + 1)
            lemma_pow2_adds((63 - div_lz) as nat, (shl + 1) as nat);
            assert(pow2((63 - div_lz) as nat) * pow2((shl + 1) as nat)
                <= div * pow2((shl + 1) as nat)) by (nonlinear_arith)
                requires
                    pow2((63 - div_lz) as nat) <= div,
                    pow2((shl + 1) as nat) > 0,
            ;
        }
        if full_normalization && duo < (div << (shl as u64)) {
            proof {
                // at shift zero the divisor already fits below the dividend
                assert(div << (shl as u64) == div * pow2(shl as nat));
                lemma_mul_basics(div as int);
                if shl == 0 {
                    assert(pow2(shl as nat) == 1);
                    assert(duo < div);
                    assert(false);
                }
                // after the decrement the divisor still reaches past duo/2
                lemma_pow2_adds((64 - div_lz) as nat, (shl - 1) as nat);
                assert(div * pow2((shl - 1) as nat)
                    < pow2((64 - div_lz) as nat) * pow2((shl - 1) as nat)) by (nonlinear_arith)
                    requires
                        div < pow2((64 - div_lz) as nat),
                        pow2((shl - 1) as nat) > 0,
                ;
            }
            shl -= 1;
        }
        shl
    } else {
        let mut test = duo;
        let mut shl: u32 = 0;
        let mut lvl: u32 = 32;
        proof {
            lemma_div_basics(duo as int);
            assert(duo < div * pow2(64)) by (nonlinear_arith)
                requires
                    1 <= div,
                    duo < pow2(64),
            ;
        }
        while lvl != 0
            invariant
                div != 0,
                duo >= div,
                lvl == 32 || lvl == 16 || lvl == 8 || lvl == 4 || lvl == 2 || lvl == 1 || lvl == 0,
                shl + 2 * lvl <= 64,
                test == duo as int / pow2(shl as nat) as int,
                div <= test,
                lvl != 0 ==> duo < div * pow2((shl + 2 * lvl) as nat),
                lvl == 0 ==> duo < div * pow2((shl + 1) as nat),
            decreases lvl,
        {
            proof {
                lemma_pow2_pos(shl as nat);
                lemma_pow2_pos(lvl as nat);
                lemma_u64_shr_is_div(test, lvl as u64);
                lemma_div_denominator(duo as int, pow2(shl as nat) as int, pow2(lvl as nat) as int);
                lemma_pow2_adds(shl as nat, lvl as nat);
            }
            let tmp = test >> (lvl as u64);
            assert(tmp == duo as int / pow2((shl + lvl) as nat) as int);
            if div <= tmp {
                test = tmp;
                shl = shl + lvl;
            } else {
                proof {
                    lemma_div_mul_le(duo as int, pow2((shl + lvl) as nat) as int);
                    assert((tmp + 1) * pow2((shl + lvl) as nat) <= div * pow2((shl + lvl) as nat))
                        by (nonlinear_arith)
                        requires
                            tmp + 1 <= div,
                            pow2((shl + lvl) as nat) > 0,
                    ;
                }
            }
            lvl = lvl / 2;
        }
        proof {
            lemma_pow2_pos(shl as nat);
            lemma_div_mul_le(duo as int, pow2(shl as nat) as int);
            assert(div * pow2(shl as nat) <= (duo as int / pow2(shl as nat) as int) * pow2(
                shl as nat)) by (nonlinear_arith)
                requires
                    div <= duo as int / pow2(shl as nat) as int,
                    pow2(shl as nat) > 0,
            ;
            lemma2_to64();
            if shl >= 64 {
                if shl > 64 {
                    lemma_pow2_strictly_increases(64, shl as nat);
                }
                assert(pow2(64) <= pow2(shl as nat) <= div * pow2(shl as nat));
                assert(false);
            }
        }
        shl
    }
}

} // verus!
