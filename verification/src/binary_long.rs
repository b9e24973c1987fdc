//! Binary long division: the fallback algorithm for any width, using only
//! shift, add, subtract and compare. After normalizing the divisor against
//! the dividend, one quotient bit is decided per step, and the loop exits
//! early as soon as the running remainder drops below the original divisor.

use crate::norm_shift::{
    u16_normalization_shift, u32_normalization_shift, u64_normalization_shift,
    u8_normalization_shift,
};
use crate::signed::{
    div_trunc, i128_apply_signs, i16_apply_signs, i16_magnitudes, i32_apply_signs,
    i32_magnitudes, i64_apply_signs, i64_magnitudes, i8_apply_signs, i8_magnitudes, rem_trunc,
};
use vstd::arithmetic::div_mod::*;
use vstd::arithmetic::mul::*;
use vstd::arithmetic::power2::*;
use vstd::bits::*;
use vstd::prelude::*;

verus! {

/// Computes the quotient and remainder of `duo` divided by `div` and
/// returns them as a tuple.
///
/// This uses binary long division with no calls to smaller divisions, and
/// is designed for CPUs without fast division hardware.
#[verifier::loop_isolation(false)]
pub fn u32_div_rem_binary_long(duo: u32, div: u32) -> (r: (u32, u32))
    requires
        div != 0,
    ensures
        r.0 == duo as int / div as int,
        r.1 == duo as int % div as int,
{
    proof {
        lemma2_to64();
    }
    // handle the "quotient is zero" and "quotient is one" cases before
    // finding the normalization shift
    if duo < div {
        proof {
            lemma_basic_div(duo as int, div as int);
            lemma_small_mod(duo as nat, div as nat);
        }
        return (0, duo);
    }
    if duo - div < div {
        proof {
            lemma_fundamental_div_mod_converse(duo as int, div as int, 1, duo - div);
        }
        return (1, duo - div);
    }
    let shift = u32_normalization_shift(duo, div, true, true);
    proof {
        lemma_pow2_pos(shift as nat);
        assert(pow2(shift as nat) <= div * pow2(shift as nat)) by (nonlinear_arith)
            requires
                1 <= div,
                0 < pow2(shift as nat),
        ;
        lemma_u32_shl_is_mul(div, shift);
        lemma_u32_shl_is_mul(1u32, shift);
        lemma_pow2_adds(shift as nat, 1);
        assert(div * pow2((shift + 1) as nat) == 2 * (div * pow2(shift as nat)))
            by (nonlinear_arith)
            requires
                pow2((shift + 1) as nat) == 2 * pow2(shift as nat),
        ;
    }
    // one long division step on the normalized arguments, then the loop
    let mut div_s: u32 = div << shift;
    let mut pow: u32 = 1u32 << shift;
    let mut quo: u32 = pow;
    let mut rem: u32 = duo - div_s;
    if rem < div {
        proof {
            lemma_mul_is_commutative(quo as int, div as int);
            lemma_mul_basics(pow2(shift as nat) as int);
            lemma_mul_is_commutative(1, pow2(shift as nat) as int);
            lemma_fundamental_div_mod_converse(duo as int, div as int, quo as int, rem as int);
        }
        return (quo, rem);
    }
    proof {
        // a zero shift would have produced a remainder below the divisor
        lemma_mul_basics(div as int);
        lemma_mul_basics(pow2(shift as nat) as int);
        lemma_mul_is_commutative(1, pow2(shift as nat) as int);
        lemma_mul_is_commutative(div as int, pow2(shift as nat) as int);
        if shift == 0 {
            assert(false);
        }
        lemma_pow2_adds((shift - 1) as nat, 1);
        assert(div * pow2(shift as nat) == 2 * (div * pow2((shift - 1) as nat)))
            by (nonlinear_arith)
            requires
                pow2(shift as nat) == 2 * pow2((shift - 1) as nat),
        ;
    }
    div_s = div_s / 2;
    pow = pow / 2;
    let ghost mut k: nat = (shift - 1) as nat;
    loop
        invariant
            div != 0,
            pow == pow2(k),
            div_s == div * pow2(k),
            duo == div * quo + rem,
            div <= rem,
            rem < div * pow2((k + 1) as nat),
        decreases k,
    {
        proof {
            lemma_pow2_pos(k);
            lemma_mul_basics(div as int);
            lemma_pow2_adds(k, 1);
            assert(div * pow2((k + 1) as nat) == 2 * (div * pow2(k))) by (nonlinear_arith)
                requires
                    pow2((k + 1) as nat) == 2 * pow2(k),
            ;
        }
        if rem >= div_s {
            proof {
                // the reassembled quotient stays within the dividend
                assert(div * (quo + pow2(k)) == div * quo + div * pow2(k)) by (nonlinear_arith);
                assert(quo + pow2(k) <= div * (quo + pow2(k))) by (nonlinear_arith)
                    requires
                        1 <= div,
                        0 <= quo + pow2(k),
                ;
            }
            rem = rem - div_s;
            quo = quo + pow;
            if rem < div {
                proof {
                    lemma_mul_is_commutative(quo as int, div as int);
                    lemma_fundamental_div_mod_converse(
                        duo as int,
                        div as int,
                        quo as int,
                        rem as int,
                    );
                }
                return (quo, rem);
            }
        }
        proof {
            // with no bits left the remainder would already be below the
            // divisor, so the loop always returns before exhausting them
            if k == 0 {
                assert(false);
            }
            lemma_pow2_adds((k - 1) as nat, 1);
            assert(div * pow2(k) == 2 * (div * pow2((k - 1) as nat))) by (nonlinear_arith)
                requires
                    pow2(k) == 2 * pow2((k - 1) as nat),
            ;
            k = (k - 1) as nat;
        }
        pow = pow / 2;
        div_s = div_s / 2;
    }
}

/// Computes the quotient and remainder of `duo` divided by `div` and
/// returns them as a tuple, truncating toward zero.
///
/// Sign handling delegates to the unsigned algorithm on the magnitudes and
/// restores signs afterwards; dividing the minimum value by minus one wraps
/// back to the minimum value with a zero remainder.
pub fn i32_div_rem_binary_long(duo: i32, div: i32) -> (r: (i32, i32))
    requires
        div != 0,
    ensures
        duo == i32::MIN && div == -1 ==> r.0 == i32::MIN && r.1 == 0,
        !(duo == i32::MIN && div == -1) ==> r.0 == div_trunc(duo as int, div as int) && r.1
            == rem_trunc(duo as int, div as int),
{
    let m = i32_magnitudes(duo, div);
    let t = u32_div_rem_binary_long(m.0, m.1);
    i32_apply_signs(duo, div, t.0, t.1)
}

/// Computes the quotient and remainder of `duo` divided by `div` and
/// returns them as a tuple.
///
/// This uses binary long division with no calls to smaller divisions, and
/// is designed for CPUs without fast division hardware.
#[verifier::loop_isolation(false)]
pub fn u8_div_rem_binary_long(duo: u8, div: u8) -> (r: (u8, u8))
    requires
        div != 0,
    ensures
        r.0 == duo as int / div as int,
        r.1 == duo as int % div as int,
{
    proof {
        lemma2_to64();
    }
    // handle the "quotient is zero" and "quotient is one" cases before
    // finding the normalization shift
    if duo < div {
        proof {
            lemma_basic_div(duo as int, div as int);
            lemma_small_mod(duo as nat, div as nat);
        }
        return (0, duo);
    }
    if duo - div < div {
        proof {
            lemma_fundamental_div_mod_converse(duo as int, div as int, 1, duo - div);
        }
        return (1, duo - div);
    }
    let shift = u8_normalization_shift(duo, div, true, true);
    proof {
        lemma_pow2_pos(shift as nat);
        assert(pow2(shift as nat) <= div * pow2(shift as nat)) by (nonlinear_arith)
            requires
                1 <= div,
                0 < pow2(shift as nat),
        ;
        lemma_u8_shl_is_mul(div, shift as u8);
        lemma_u8_shl_is_mul(1u8, shift as u8);
        lemma_pow2_adds(shift as nat, 1);
        assert(div * pow2((shift + 1) as nat) == 2 * (div * pow2(shift as nat)))
            by (nonlinear_arith)
            requires
                pow2((shift + 1) as nat) == 2 * pow2(shift as nat),
        ;
    }
    // one long division step on the normalized arguments, then the loop
    let mut div_s: u8 = div << (shift as u8);
    let mut pow: u8 = 1u8 << (shift as u8);
    let mut quo: u8 = pow;
    let mut rem: u8 = duo - div_s;
    if rem < div {
        proof {
            lemma_mul_is_commutative(quo as int, div as int);
            lemma_mul_basics(pow2(shift as nat) as int);
            lemma_mul_is_commutative(1, pow2(shift as nat) as int);
            lemma_fundamental_div_mod_converse(duo as int, div as int, quo as int, rem as int);
        }
        return (quo, rem);
    }
    proof {
        // a zero shift would have produced a remainder below the divisor
        lemma_mul_basics(div as int);
        lemma_mul_basics(pow2(shift as nat) as int);
        lemma_mul_is_commutative(1, pow2(shift as nat) as int);
        lemma_mul_is_commutative(div as int, pow2(shift as nat) as int);
        if shift == 0 {
            assert(false);
        }
        lemma_pow2_adds((shift - 1) as nat, 1);
        assert(div * pow2(shift as nat) == 2 * (div * pow2((shift - 1) as nat)))
            by (nonlinear_arith)
            requires
                pow2(shift as nat) == 2 * pow2((shift - 1) as nat),
        ;
    }
    div_s = div_s / 2;
    pow = pow / 2;
    let ghost mut k: nat = (shift - 1) as nat;
    loop
        invariant
            div != 0,
            pow == pow2(k),
            div_s == div * pow2(k),
            duo == div * quo + rem,
            div <= rem,
            rem < div * pow2((k + 1) as nat),
        decreases k,
    {
        proof {
            lemma_pow2_pos(k);
            lemma_mul_basics(div as int);
            lemma_pow2_adds(k, 1);
            assert(div * pow2((k + 1) as nat) == 2 * (div * pow2(k))) by (nonlinear_arith)
                requires
                    pow2((k + 1) as nat) == 2 * pow2(k),
            ;
        }
        if rem >= div_s {
            proof {
                // the reassembled quotient stays within the dividend
                assert(div * (quo + pow2(k)) == div * quo + div * pow2(k)) by (nonlinear_arith);
                assert(quo + pow2(k) <= div * (quo + pow2(k))) by (nonlinear_arith)
                    requires
                        1 <= div,
                        0 <= quo + pow2(k),
                ;
            }
            rem = rem - div_s;
            quo = quo + pow;
            if rem < div {
                proof {
                    lemma_mul_is_commutative(quo as int, div as int);
                    lemma_fundamental_div_mod_converse(
                        duo as int,
                        div as int,
                        quo as int,
                        rem as int,
                    );
                }
                return (quo, rem);
            }
        }
        proof {
            // with no bits left the remainder would already be below the
            // divisor, so the loop always returns before exhausting them
            if k == 0 {
                assert(false);
            }
            lemma_pow2_adds((k - 1) as nat, 1);
            assert(div * pow2(k) == 2 * (div * pow2((k - 1) as nat))) by (nonlinear_arith)
                requires
                    pow2(k) == 2 * pow2((k - 1) as nat),
            ;
            k = (k - 1) as nat;
        }
        pow = pow / 2;
        div_s = div_s / 2;
    }
}

/// Computes the quotient and remainder of `duo` divided by `div` and
/// returns them as a tuple, truncating toward zero.
///
/// Sign handling delegates to the unsigned algorithm on the magnitudes and
/// restores signs afterwards; dividing the minimum value by minus one wraps
/// back to the minimum value with a zero remainder.
pub fn i8_div_rem_binary_long(duo: i8, div: i8) -> (r: (i8, i8))
    requires
        div != 0,
    ensures
        duo == i8::MIN && div == -1 ==> r.0 == i8::MIN && r.1 == 0,
        !(duo == i8::MIN && div == -1) ==> r.0 == div_trunc(duo as int, div as int) && r.1
            == rem_trunc(duo as int, div as int),
{
    let m = i8_magnitudes(duo, div);
    let t = u8_div_rem_binary_long(m.0, m.1);
    i8_apply_signs(duo, div, t.0, t.1)
}

/// Computes the quotient and remainder of `duo` divided by `div` and
/// returns them as a tuple.
///
/// This uses binary long division with no calls to smaller divisions, and
/// is designed for CPUs without fast division hardware.
#[verifier::loop_isolation(false)]
pub fn u16_div_rem_binary_long(duo: u16, div: u16) -> (r: (u16, u16))
    requires
        div != 0,
    ensures
        r.0 == duo as int / div as int,
        r.1 == duo as int % div as int,
{
    proof {
        lemma2_to64();
    }
    // handle the "quotient is zero" and "quotient is one" cases before
    // finding the normalization shift
    if duo < div {
        proof {
            lemma_basic_div(duo as int, div as int);
            lemma_small_mod(duo as nat, div as nat);
        }
        return (0, duo);
    }
    if duo - div < div {
        proof {
            lemma_fundamental_div_mod_converse(duo as int, div as int, 1, duo - div);
        }
        return (1, duo - div);
    }
    let shift = u16_normalization_shift(duo, div, true, true);
    proof {
        lemma_pow2_pos(shift as nat);
        assert(pow2(shift as nat) <= div * pow2(shift as nat)) by (nonlinear_arith)
            requires
                1 <= div,
                0 < pow2(shift as nat),
        ;
        lemma_u16_shl_is_mul(div, shift as u16);
        lemma_u16_shl_is_mul(1u16, shift as u16);
        lemma_pow2_adds(shift as nat, 1);
        assert(div * pow2((shift + 1) as nat) == 2 * (div * pow2(shift as nat)))
            by (nonlinear_arith)
            requires
                pow2((shift + 1) as nat) == 2 * pow2(shift as nat),
        ;
    }
    // one long division step on the normalized arguments, then the loop
    let mut div_s: u16 = div << (shift as u16);
    let mut pow: u16 = 1u16 << (shift as u16);
    let mut quo: u16 = pow;
    let mut rem: u16 = duo - div_s;
    if rem < div {
        proof {
            lemma_mul_is_commutative(quo as int, div as int);
            lemma_mul_basics(pow2(shift as nat) as int);
            lemma_mul_is_commutative(1, pow2(shift as nat) as int);
            lemma_fundamental_div_mod_converse(duo as int, div as int, quo as int, rem as int);
        }
        return (quo, rem);
    }
    proof {
        // a zero shift would have produced a remainder below the divisor
        lemma_mul_basics(div as int);
        lemma_mul_basics(pow2(shift as nat) as int);
        lemma_mul_is_commutative(1, pow2(shift as nat) as int);
        lemma_mul_is_commutative(div as int, pow2(shift as nat) as int);
        if shift == 0 {
            assert(false);
        }
        lemma_pow2_adds((shift - 1) as nat, 1);
        assert(div * pow2(shift as nat) == 2 * (div * pow2((shift - 1) as nat)))
            by (nonlinear_arith)
            requires
                pow2(shift as nat) == 2 * pow2((shift - 1) as nat),
        ;
    }
    div_s = div_s / 2;
    pow = pow / 2;
    let ghost mut k: nat = (shift - 1) as nat;
    loop
        invariant
            div != 0,
            pow == pow2(k),
            div_s == div * pow2(k),
            duo == div * quo + rem,
            div <= rem,
            rem < div * pow2((k + 1) as nat),
        decreases k,
    {
        proof {
            lemma_pow2_pos(k);
            lemma_mul_basics(div as int);
            lemma_pow2_adds(k, 1);
            assert(div * pow2((k + 1) as nat) == 2 * (div * pow2(k))) by (nonlinear_arith)
                requires
                    pow2((k + 1) as nat) == 2 * pow2(k),
            ;
        }
        if rem >= div_s {
            proof {
                // the reassembled quotient stays within the dividend
                assert(div * (quo + pow2(k)) == div * quo + div * pow2(k)) by (nonlinear_arith);
                assert(quo + pow2(k) <= div * (quo + pow2(k))) by (nonlinear_arith)
                    requires
                        1 <= div,
                        0 <= quo + pow2(k),
                ;
            }
            rem = rem - div_s;
            quo = quo + pow;
            if rem < div {
                proof {
                    lemma_mul_is_commutative(quo as int, div as int);
                    lemma_fundamental_div_mod_converse(
                        duo as int,
                        div as int,
                        quo as int,
                        rem as int,
                    );
                }
                return (quo, rem);
            }
        }
        proof {
            // with no bits left the remainder would already be below the
            // divisor, so the loop always returns before exhausting them
            if k == 0 {
                assert(false);
            }
            lemma_pow2_adds((k - 1) as nat, 1);
            assert(div * pow2(k) == 2 * (div * pow2((k - 1) as nat))) by (nonlinear_arith)
                requires
                    pow2(k) == 2 * pow2((k - 1) as nat),
            ;
            k = (k - 1) as nat;
        }
        pow = pow / 2;
        div_s = div_s / 2;
    }
}

/// Computes the quotient and remainder of `duo` divided by `div` and
/// returns them as a tuple, truncating toward zero.
///
/// Sign handling delegates to the unsigned algorithm on the magnitudes and
/// restores signs afterwards; dividing the minimum value by minus one wraps
/// back to the minimum value with a zero remainder.
pub fn i16_div_rem_binary_long(duo: i16, div: i16) -> (r: (i16, i16))
    requires
        div != 0,
    ensures
        duo == i16::MIN && div == -1 ==> r.0 == i16::MIN && r.1 == 0,
        !(duo == i16::MIN && div == -1) ==> r.0 == div_trunc(duo as int, div as int) && r.1
            == rem_trunc(duo as int, div as int),
{
    let m = i16_magnitudes(duo, div);
    let t = u16_div_rem_binary_long(m.0, m.1);
    i16_apply_signs(duo, div, t.0, t.1)
}

/// Computes the quotient and remainder of `duo` divided by `div` and
/// returns them as a tuple.
///
/// This uses binary long division with no calls to smaller divisions, and
/// is designed for CPUs without fast division hardware.
#[verifier::loop_isolation(false)]
pub fn u64_div_rem_binary_long(duo: u64, div: u64) -> (r: (u64, u64))
    requires
        div != 0,
    ensures
        r.0 == duo as int / div as int,
        r.1 == duo as int % div as int,
{
    proof {
        lemma2_to64();
    }
    // handle the "quotient is zero" and "quotient is one" cases before
    // finding the normalization shift
    if duo < div {
        proof {
            lemma_basic_div(duo as int, div as int);
            lemma_small_mod(duo as nat, div as nat);
        }
        return (0, duo);
    }
    if duo - div < div {
        proof {
            lemma_fundamental_div_mod_converse(duo as int, div as int, 1, duo - div);
        }
        return (1, duo - div);
    }
    let shift = u64_normalization_shift(duo, div, true, true);
    proof {
        lemma_pow2_pos(shift as nat);
        assert(pow2(shift as nat) <= div * pow2(shift as nat)) by (nonlinear_arith)
            requires
                1 <= div,
                0 < pow2(shift as nat),
        ;
        lemma_u64_shl_is_mul(div, shift as u64);
        lemma_u64_shl_is_mul(1u64, shift as u64);
        lemma_pow2_adds(shift as nat, 1);
        assert(div * pow2((shift + 1) as nat) == 2 * (div * pow2(shift as nat)))
            by (nonlinear_arith)
            requires
                pow2((shift + 1) as nat) == 2 * pow2(shift as nat),
        ;
    }
    // one long division step on the normalized arguments, then the loop
    let mut div_s: u64 = div << (shift as u64);
    let mut pow: u64 = 1u64 << (shift as u64);
    let mut quo: u64 = pow;
    let mut rem: u64 = duo - div_s;
    if rem < div {
        proof {
            lemma_mul_is_commutative(quo as int, div as int);
            lemma_mul_basics(pow2(shift as nat) as int);
            lemma_mul_is_commutative(1, pow2(shift as nat) as int);
            lemma_fundamental_div_mod_converse(duo as int, div as int, quo as int, rem as int);
        }
        return (quo, rem);
    }
    proof {
        // a zero shift would have produced a remainder below the divisor
        lemma_mul_basics(div as int);
        lemma_mul_basics(pow2(shift as nat) as int);
        lemma_mul_is_commutative(1, pow2(shift as nat) as int);
        lemma_mul_is_commutative(div as int, pow2(shift as nat) as int);
        if shift == 0 {
            assert(false);
        }
        lemma_pow2_adds((shift - 1) as nat, 1);
        assert(div * pow2(shift as nat) == 2 * (div * pow2((shift - 1) as nat)))
            by (nonlinear_arith)
            requires
                pow2(shift as nat) == 2 * pow2((shift - 1) as nat),
        ;
    }
    div_s = div_s / 2;
    pow = pow / 2;
    let ghost mut k: nat = (shift - 1) as nat;
    loop
        invariant
            div != 0,
            pow == pow2(k),
            div_s == div * pow2(k),
            duo == div * quo + rem,
            div <= rem,
            rem < div * pow2((k + 1) as nat),
        decreases k,
    {
        proof {
            lemma_pow2_pos(k);
            lemma_mul_basics(div as int);
            lemma_pow2_adds(k, 1);
            assert(div * pow2((k + 1) as nat) == 2 * (div * pow2(k))) by (nonlinear_arith)
                requires
                    pow2((k + 1) as nat) == 2 * pow2(k),
            ;
        }
        if rem >= div_s {
            proof {
                // the reassembled quotient stays within the dividend
                assert(div * (quo + pow2(k)) == div * quo + div * pow2(k)) by (nonlinear_arith);
                assert(quo + pow2(k) <= div * (quo + pow2(k))) by (nonlinear_arith)
                    requires
                        1 <= div,
                        0 <= quo + pow2(k),
                ;
            }
            rem = rem - div_s;
            quo = quo + pow;
            if rem < div {
                proof {
                    lemma_mul_is_commutative(quo as int, div as int);
                    lemma_fundamental_div_mod_converse(
                        duo as int,
                        div as int,
                        quo as int,
                        rem as int,
                    );
                }
                return (quo, rem);
            }
        }
        proof {
            // with no bits left the remainder would already be below the
            // divisor, so the loop always returns before exhausting them
            if k == 0 {
                assert(false);
            }
            lemma_pow2_adds((k - 1) as nat, 1);
            assert(div * pow2(k) == 2 * (div * pow2((k - 1) as nat))) by (nonlinear_arith)
                requires
                    pow2(k) == 2 * pow2((k - 1) as nat),
            ;
            k = (k - 1) as nat;
        }
        pow = pow / 2;
        div_s = div_s / 2;
    }
}

/// Computes the quotient and remainder of `duo` divided by `div` and
/// returns them as a tuple, truncating toward zero.
///
/// Sign handling delegates to the unsigned algorithm on the magnitudes and
/// restores signs afterwards; dividing the minimum value by minus one wraps
/// back to the minimum value with a zero remainder.
pub fn i64_div_rem_binary_long(duo: i64, div: i64) -> (r: (i64, i64))
    requires
        div != 0,
    ensures
        duo == i64::MIN && div == -1 ==> r.0 == i64::MIN && r.1 == 0,
        !(duo == i64::MIN && div == -1) ==> r.0 == div_trunc(duo as int, div as int) && r.1
            == rem_trunc(duo as int, div as int),
{
    let m = i64_magnitudes(duo, div);
    let t = u64_div_rem_binary_long(m.0, m.1);
    i64_apply_signs(duo, div, t.0, t.1)
}

} // verus!
