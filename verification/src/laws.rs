//! The laws that every division function of this crate obeys, stated once
//! per width: the wrapping division identity and the remainder bounds.
//!
//! Every unsigned function ensures that it returns exactly the quotient and
//! remainder of its operands, and every signed function ensures the
//! truncating quotient and remainder (with the minimum value divided by
//! minus one wrapping); these lemmas show that those contracted values
//! satisfy the identity `duo == div.wrapping_mul(quo).wrapping_add(rem)`
//! and the remainder bounds, for every input with a nonzero divisor.

use crate::signed::{div_trunc, lemma_rem_trunc_sign, rem_trunc};
use vstd::arithmetic::div_mod::*;
use vstd::prelude::*;
use vstd::wrapping::{
    i128_specs, i16_specs, i32_specs, i64_specs, i8_specs, u128_specs, u16_specs, u32_specs,
    u64_specs, u8_specs,
};

verus! {

/// Division identity and remainder bound for the `u8` quotient and
/// remainder that every unsigned division function of this width returns.
pub proof fn lemma_division_identity_u8(duo: u8, div: u8)
    requires
        div != 0,
    ensures
        u8_specs::wrapping_add(u8_specs::wrapping_mul(div, (duo as int / div as int) as u8), (duo as int % div as int) as u8) == duo,
        (duo as int % div as int) < div,
{
    let q = duo as int / div as int;
    let rem = duo as int % div as int;
    lemma_fundamental_div_mod(duo as int, div as int);
    lemma_mod_bound(duo as int, div as int);
    assert(0 <= div * q <= duo) by (nonlinear_arith)
        requires
            duo == div * q + rem,
            0 <= rem,
            0 <= duo,
            0 < div,
            0 <= q,
    ;
    lemma_div_pos_is_pos(duo as int, div as int);
    assert(div * q == (div as nat * q as nat)) by (nonlinear_arith)
        requires
            0 <= div,
            0 <= q,
    ;
    lemma_small_mod((div * q) as nat, 0x100 as nat);
}

/// Division identity and remainder bound for the `u16` quotient and
/// remainder that every unsigned division function of this width returns.
pub proof fn lemma_division_identity_u16(duo: u16, div: u16)
    requires
        div != 0,
    ensures
        u16_specs::wrapping_add(
            u16_specs::wrapping_mul(div, (duo as int / div as int) as u16),
            (duo as int % div as int) as u16,
        ) == duo,
        (duo as int % div as int) < div,
{
    let q = duo as int / div as int;
    let rem = duo as int % div as int;
    lemma_fundamental_div_mod(duo as int, div as int);
    lemma_mod_bound(duo as int, div as int);
    assert(0 <= div * q <= duo) by (nonlinear_arith)
        requires
            duo == div * q + rem,
            0 <= rem,
            0 <= duo,
            0 < div,
            0 <= q,
    ;
    lemma_div_pos_is_pos(duo as int, div as int);
    assert(div * q == (div as nat * q as nat)) by (nonlinear_arith)
        requires
            0 <= div,
            0 <= q,
    ;
    lemma_small_mod((div * q) as nat, 0x10000 as nat);
}

/// Division identity and remainder bound for the `u32` quotient and
/// remainder that every unsigned division function of this width returns.
pub proof fn lemma_division_identity_u32(duo: u32, div: u32)
    requires
        div != 0,
    ensures
        u32_specs::wrapping_add(
            u32_specs::wrapping_mul(div, (duo as int / div as int) as u32),
            (duo as int % div as int) as u32,
        ) == duo,
        (duo as int % div as int) < div,
{
    let q = duo as int / div as int;
    let rem = duo as int % div as int;
    lemma_fundamental_div_mod(duo as int, div as int);
    lemma_mod_bound(duo as int, div as int);
    assert(0 <= div * q <= duo) by (nonlinear_arith)
        requires
            duo == div * q + rem,
            0 <= rem,
            0 <= duo,
            0 < div,
            0 <= q,
    ;
    lemma_div_pos_is_pos(duo as int, div as int);
    assert(div * q == (div as nat * q as nat)) by (nonlinear_arith)
        requires
            0 <= div,
            0 <= q,
    ;
    lemma_small_mod((div * q) as nat, 0x100000000 as nat);
}

/// Division identity and remainder bound for the `u64` quotient and
/// remainder that every unsigned division function of this width returns.
pub proof fn lemma_division_identity_u64(duo: u64, div: u64)
    requires
        div != 0,
    ensures
        u64_specs::wrapping_add(
            u64_specs::wrapping_mul(div, (duo as int / div as int) as u64),
            (duo as int % div as int) as u64,
        ) == duo,
        (duo as int % div as int) < div,
{
    let q = duo as int / div as int;
    let rem = duo as int % div as int;
    lemma_fundamental_div_mod(duo as int, div as int);
    lemma_mod_bound(duo as int, div as int);
    assert(0 <= div * q <= duo) by (nonlinear_arith)
        requires
            duo == div * q + rem,
            0 <= rem,
            0 <= duo,
            0 < div,
            0 <= q,
    ;
    lemma_div_pos_is_pos(duo as int, div as int);
    assert(div * q == (div as nat * q as nat)) by (nonlinear_arith)
        requires
            0 <= div,
            0 <= q,
    ;
    lemma_small_mod((div * q) as nat, 0x10000000000000000 as nat);
}

/// Division identity and remainder bound for the `u128` quotient and
/// remainder that every unsigned division function of this width returns.
pub proof fn lemma_division_identity_u128(duo: u128, div: u128)
    requires
        div != 0,
    ensures
        u128_specs::wrapping_add(
            u128_specs::wrapping_mul(div, (duo as int / div as int) as u128),
            (duo as int % div as int) as u128,
        ) == duo,
        (duo as int % div as int) < div,
{
    let q = duo as int / div as int;
    let rem = duo as int % div as int;
    lemma_fundamental_div_mod(duo as int, div as int);
    lemma_mod_bound(duo as int, div as int);
    assert(0 <= div * q <= duo) by (nonlinear_arith)
        requires
            duo == div * q + rem,
            0 <= rem,
            0 <= duo,
            0 < div,
            0 <= q,
    ;
    lemma_div_pos_is_pos(duo as int, div as int);
    assert(div * q == (div as nat * q as nat)) by (nonlinear_arith)
        requires
            0 <= div,
            0 <= q,
    ;
    lemma_small_mod((div * q) as nat, 0x100000000000000000000000000000000 as nat);
}

/// Division identity for the signed quotient and remainder that every
/// signed division function of this width returns, the wrapped
/// minimum-value case included.
pub proof fn lemma_division_identity_i8(duo: i8, div: i8, q: i8, rem: i8)
    requires
        div != 0,
        duo == i8::MIN && div == -1 ==> q == i8::MIN && rem == 0,
        !(duo == i8::MIN && div == -1) ==> q == div_trunc(duo as int, div as int) && rem
            == rem_trunc(duo as int, div as int),
    ensures
        i8_specs::wrapping_add(i8_specs::wrapping_mul(div, q), rem) == duo,
{
    if duo == i8::MIN && div == -1 {
        assert((-1) * (i8::MIN as int) == 0x80) by (nonlinear_arith)
            requires
                i8::MIN == -0x80,
        ;
        lemma_small_mod(0x80 as nat, 0x100 as nat);
    } else {
        lemma_rem_trunc_sign(duo as int, div as int);
        let p = div * q;
        assert(div * q == duo - rem);
        if p >= 0 {
            lemma_small_mod(p as nat, 0x100 as nat);
        } else {
            lemma_mod_add_multiples_vanish(p as int, 0x100 as int);
            lemma_small_mod((p + 0x100) as nat, 0x100 as nat);
        }
    }
}

/// Division identity for the signed quotient and remainder that every
/// signed division function of this width returns, the wrapped
/// minimum-value case included.
pub proof fn lemma_division_identity_i16(duo: i16, div: i16, q: i16, rem: i16)
    requires
        div != 0,
        duo == i16::MIN && div == -1 ==> q == i16::MIN && rem == 0,
        !(duo == i16::MIN && div == -1) ==> q == div_trunc(duo as int, div as int) && rem
            == rem_trunc(duo as int, div as int),
    ensures
        i16_specs::wrapping_add(i16_specs::wrapping_mul(div, q), rem) == duo,
{
    if duo == i16::MIN && div == -1 {
        assert((-1) * (i16::MIN as int) == 0x8000) by (nonlinear_arith)
            requires
                i16::MIN == -0x8000,
        ;
        lemma_small_mod(0x8000 as nat, 0x10000 as nat);
    } else {
        lemma_rem_trunc_sign(duo as int, div as int);
        let p = div * q;
        assert(div * q == duo - rem);
        if p >= 0 {
            lemma_small_mod(p as nat, 0x10000 as nat);
        } else {
            lemma_mod_add_multiples_vanish(p as int, 0x10000 as int);
            lemma_small_mod((p + 0x10000) as nat, 0x10000 as nat);
        }
    }
}

/// Division identity for the signed quotient and remainder that every
/// signed division function of this width returns, the wrapped
/// minimum-value case included.
pub proof fn lemma_division_identity_i32(duo: i32, div: i32, q: i32, rem: i32)
    requires
        div != 0,
        duo == i32::MIN && div == -1 ==> q == i32::MIN && rem == 0,
        !(duo == i32::MIN && div == -1) ==> q == div_trunc(duo as int, div as int) && rem
            == rem_trunc(duo as int, div as int),
    ensures
        i32_specs::wrapping_add(i32_specs::wrapping_mul(div, q), rem) == duo,
{
    if duo == i32::MIN && div == -1 {
        assert((-1) * (i32::MIN as int) == 0x80000000) by (nonlinear_arith)
            requires
                i32::MIN == -0x80000000,
        ;
        lemma_small_mod(0x80000000 as nat, 0x100000000 as nat);
    } else {
        lemma_rem_trunc_sign(duo as int, div as int);
        let p = div * q;
        assert(div * q == duo - rem);
        if p >= 0 {
            lemma_small_mod(p as nat, 0x100000000 as nat);
        } else {
            lemma_mod_add_multiples_vanish(p as int, 0x100000000 as int);
            lemma_small_mod((p + 0x100000000) as nat, 0x100000000 as nat);
        }
    }
}

/// Division identity for the signed quotient and remainder that every
/// signed division function of this width returns, the wrapped
/// minimum-value case included.
pub proof fn lemma_division_identity_i64(duo: i64, div: i64, q: i64, rem: i64)
    requires
        div != 0,
        duo == i64::MIN && div == -1 ==> q == i64::MIN && rem == 0,
        !(duo == i64::MIN && div == -1) ==> q == div_trunc(duo as int, div as int) && rem
            == rem_trunc(duo as int, div as int),
    ensures
        i64_specs::wrapping_add(i64_specs::wrapping_mul(div, q), rem) == duo,
{
    if duo == i64::MIN && div == -1 {
        assert((-1) * (i64::MIN as int) == 0x8000000000000000) by (nonlinear_arith)
            requires
                i64::MIN == -0x8000000000000000,
        ;
        lemma_small_mod(0x8000000000000000 as nat, 0x10000000000000000 as nat);
    } else {
        lemma_rem_trunc_sign(duo as int, div as int);
        let p = div * q;
        assert(div * q == duo - rem);
        if p >= 0 {
            lemma_small_mod(p as nat, 0x10000000000000000 as nat);
        } else {
            lemma_mod_add_multiples_vanish(p as int, 0x10000000000000000 as int);
            lemma_small_mod((p + 0x10000000000000000) as nat, 0x10000000000000000 as nat);
        }
    }
}

/// Division identity for the signed quotient and remainder that every
/// signed division function of this width returns, the wrapped
/// minimum-value case included.
pub proof fn lemma_division_identity_i128(duo: i128, div: i128, q: i128, rem: i128)
    requires
        div != 0,
        duo == i128::MIN && div == -1 ==> q == i128::MIN && rem == 0,
        !(duo == i128::MIN && div == -1) ==> q == div_trunc(duo as int, div as int) && rem
            == rem_trunc(duo as int, div as int),
    ensures
        i128_specs::wrapping_add(i128_specs::wrapping_mul(div, q), rem) == duo,
{
    if duo == i128::MIN && div == -1 {
        assert((-1) * (i128::MIN as int) == 0x80000000000000000000000000000000) by (nonlinear_arith)
            requires
                i128::MIN == -0x80000000000000000000000000000000,
        ;
        lemma_small_mod(0x80000000000000000000000000000000 as nat, 0x100000000000000000000000000000000 as nat);
    } else {
        lemma_rem_trunc_sign(duo as int, div as int);
        let p = div * q;
        assert(div * q == duo - rem);
        if p >= 0 {
            lemma_small_mod(p as nat, 0x100000000000000000000000000000000 as nat);
        } else {
            lemma_mod_add_multiples_vanish(p as int, 0x100000000000000000000000000000000 as int);
            lemma_small_mod((p + 0x100000000000000000000000000000000) as nat, 0x100000000000000000000000000000000 as nat);
        }
    }
}

/// Cross-algorithm equivalence: a quotient-remainder pair satisfying the
/// division identity with a remainder below the divisor is unique, so every
/// algorithm variant whose contract pins those properties down returns
/// identical results for the same operands.
pub proof fn lemma_quotient_remainder_unique(duo: int, div: int, q1: int, r1: int, q2: int, r2: int)
    requires
        0 < div,
        duo == div * q1 + r1,
        0 <= r1 < div,
        duo == div * q2 + r2,
        0 <= r2 < div,
    ensures
        q1 == q2,
        r1 == r2,
{
    assert(q1 * div == div * q1) by (nonlinear_arith);
    assert(q2 * div == div * q2) by (nonlinear_arith);
    lemma_fundamental_div_mod_converse(duo, div, q1, r1);
    lemma_fundamental_div_mod_converse(duo, div, q2, r2);
}

} // verus!
