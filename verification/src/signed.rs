//! The mathematical model of signed (truncating) division, and the small
//! two's-complement conversions that the signed wrappers use.
//!
//! `div_trunc` and `rem_trunc` define round-toward-zero division over the
//! unbounded integers; every signed division function's contract is stated
//! in terms of them, with the single wrapping case (the minimum value
//! divided by minus one) called out separately.

use vstd::arithmetic::div_mod::*;
use vstd::arithmetic::mul::*;
use vstd::math::abs;
use vstd::prelude::*;

verus! {

/// Truncating (round-toward-zero) quotient, as `/` behaves on signed
/// machine integers.
pub open spec fn div_trunc(a: int, b: int) -> int
    recommends
        b != 0,
{
    if a >= 0 && b > 0 {
        a / b
    } else if a < 0 && b > 0 {
        -((-a) / b)
    } else if a >= 0 && b < 0 {
        -(a / (-b))
    } else {
        (-a) / (-b)
    }
}

/// Truncating remainder: what is left of `a` after removing
/// `div_trunc(a, b)` copies of `b`. Its sign follows the dividend.
pub open spec fn rem_trunc(a: int, b: int) -> int
    recommends
        b != 0,
{
    a - b * div_trunc(a, b)
}

/// The truncating remainder is zero, or carries the sign of the dividend
/// and is strictly smaller in magnitude than the divisor; together with the
/// definition of `rem_trunc` this pins down signed division completely.
pub proof fn lemma_rem_trunc_sign(a: int, b: int)
    requires
        b != 0,
    ensures
        a == b * div_trunc(a, b) + rem_trunc(a, b),
        rem_trunc(a, b) == 0 || ((rem_trunc(a, b) < 0 <==> a < 0) && abs(rem_trunc(a, b)) < abs(
            b,
        )),
{
    let p = if b > 0 {
        b
    } else {
        -b
    };
    let u = if a >= 0 {
        a
    } else {
        -a
    };
    lemma_fundamental_div_mod(u, p);
    lemma_mod_bound(u, p);
    if a >= 0 && b > 0 {
        assert(rem_trunc(a, b) == a % b);
    } else if a < 0 && b > 0 {
        assert(b * -((-a) / b) == -(b * ((-a) / b))) by (nonlinear_arith);
        assert(rem_trunc(a, b) == -((-a) % b));
    } else if a >= 0 && b < 0 {
        assert(b * -(a / (-b)) == (-b) * (a / (-b))) by (nonlinear_arith);
        assert(rem_trunc(a, b) == a % (-b));
    } else {
        assert(b * ((-a) / (-b)) == -((-b) * ((-a) / (-b)))) by (nonlinear_arith);
        assert(rem_trunc(a, b) == -((-a) % (-b)));
    }
}

/// The magnitude of a negative `i32`, as an unsigned value; exact even for
/// the minimum value, whose magnitude does not fit in `i32`.
pub fn i32_abs(x: i32) -> (r: u32)
    requires
        x < 0,
    ensures
        r == -(x as int),
{
    proof {
        assert(x < 0 ==> x as u32 == x + 0x100000000) by (bit_vector);
    }
    0u32.wrapping_sub(x as u32)
}

/// Reinterprets an unsigned magnitude up to `pow2(31)` as the negated
/// signed value.
pub fn u32_neg_to_i32(x: u32) -> (r: i32)
    requires
        x <= 0x80000000,
    ensures
        r == -(x as int),
{
    let y = 0u32.wrapping_sub(x);
    proof {
        assert(y >= 0x80000000 ==> y as i32 == y - 0x100000000) by (bit_vector);
        assert(y < 0x80000000 ==> y as i32 == y) by (bit_vector);
    }
    y as i32
}

/// Reinterprets an unsigned quotient up to `pow2(31)` as a signed value,
/// wrapping the topmost magnitude to the minimum value.
pub fn u32_wrap_to_i32(x: u32) -> (r: i32)
    requires
        x <= 0x80000000,
    ensures
        x < 0x80000000 ==> r == x,
        x == 0x80000000 ==> r == i32::MIN,
{
    proof {
        assert(x == 0x80000000 ==> x as i32 == i32::MIN) by (bit_vector);
        assert(x < 0x80000000 ==> x as i32 == x) by (bit_vector);
    }
    x as i32
}

/// The magnitude of a negative `i8`, as an unsigned value.
pub fn i8_abs(x: i8) -> (r: u8)
    requires
        x < 0,
    ensures
        r == -(x as int),
{
    proof {
        assert(x < 0 ==> x as u8 == x + 0x100) by (bit_vector);
    }
    0u8.wrapping_sub(x as u8)
}

/// Reinterprets an unsigned magnitude up to `pow2(7)` as the negated
/// signed value.
pub fn u8_neg_to_i8(x: u8) -> (r: i8)
    requires
        x <= 0x80,
    ensures
        r == -(x as int),
{
    let y = 0u8.wrapping_sub(x);
    proof {
        assert(y >= 0x80 ==> y as i8 == y - 0x100) by (bit_vector);
        assert(y < 0x80 ==> y as i8 == y) by (bit_vector);
    }
    y as i8
}

/// Reinterprets an unsigned quotient up to `pow2(7)` as a signed value,
/// wrapping the topmost magnitude to the minimum value.
pub fn u8_wrap_to_i8(x: u8) -> (r: i8)
    requires
        x <= 0x80,
    ensures
        x < 0x80 ==> r == x,
        x == 0x80 ==> r == i8::MIN,
{
    proof {
        assert(x == 0x80 ==> x as i8 == i8::MIN) by (bit_vector);
        assert(x < 0x80 ==> x as i8 == x) by (bit_vector);
    }
    x as i8
}

/// The magnitude of a negative `i16`, as an unsigned value.
pub fn i16_abs(x: i16) -> (r: u16)
    requires
        x < 0,
    ensures
        r == -(x as int),
{
    proof {
        assert(x < 0 ==> x as u16 == x + 0x10000) by (bit_vector);
    }
    0u16.wrapping_sub(x as u16)
}

/// Reinterprets an unsigned magnitude up to `pow2(15)` as the negated
/// signed value.
pub fn u16_neg_to_i16(x: u16) -> (r: i16)
    requires
        x <= 0x8000,
    ensures
        r == -(x as int),
{
    let y = 0u16.wrapping_sub(x);
    proof {
        assert(y >= 0x8000 ==> y as i16 == y - 0x10000) by (bit_vector);
        assert(y < 0x8000 ==> y as i16 == y) by (bit_vector);
    }
    y as i16
}

/// Reinterprets an unsigned quotient up to `pow2(15)` as a signed value,
/// wrapping the topmost magnitude to the minimum value.
pub fn u16_wrap_to_i16(x: u16) -> (r: i16)
    requires
        x <= 0x8000,
    ensures
        x < 0x8000 ==> r == x,
        x == 0x8000 ==> r == i16::MIN,
{
    proof {
        assert(x == 0x8000 ==> x as i16 == i16::MIN) by (bit_vector);
        assert(x < 0x8000 ==> x as i16 == x) by (bit_vector);
    }
    x as i16
}

/// The magnitude of a negative `i64`, as an unsigned value.
pub fn i64_abs(x: i64) -> (r: u64)
    requires
        x < 0,
    ensures
        r == -(x as int),
{
    proof {
        assert(x < 0 ==> x as u64 == x + 0x10000000000000000) by (bit_vector);
    }
    0u64.wrapping_sub(x as u64)
}

/// Reinterprets an unsigned magnitude up to `pow2(63)` as the negated
/// signed value.
pub fn u64_neg_to_i64(x: u64) -> (r: i64)
    requires
        x <= 0x8000000000000000,
    ensures
        r == -(x as int),
{
    let y = 0u64.wrapping_sub(x);
    proof {
        assert(y >= 0x8000000000000000 ==> y as i64 == y - 0x10000000000000000) by (bit_vector);
        assert(y < 0x8000000000000000 ==> y as i64 == y) by (bit_vector);
    }
    y as i64
}

/// Reinterprets an unsigned quotient up to `pow2(63)` as a signed value,
/// wrapping the topmost magnitude to the minimum value.
pub fn u64_wrap_to_i64(x: u64) -> (r: i64)
    requires
        x <= 0x8000000000000000,
    ensures
        x < 0x8000000000000000 ==> r == x,
        x == 0x8000000000000000 ==> r == i64::MIN,
{
    proof {
        assert(x == 0x8000000000000000 ==> x as i64 == i64::MIN) by (bit_vector);
        assert(x < 0x8000000000000000 ==> x as i64 == x) by (bit_vector);
    }
    x as i64
}

/// The magnitude of a negative `i128`, as an unsigned value.
pub fn i128_abs(x: i128) -> (r: u128)
    requires
        x < 0,
    ensures
        r == -(x as int),
{
    proof {
        assert(x < 0 ==> x as u128 == x + 0x100000000000000000000000000000000) by (bit_vector);
    }
    0u128.wrapping_sub(x as u128)
}

/// Reinterprets an unsigned magnitude up to `pow2(127)` as the negated
/// signed value.
pub fn u128_neg_to_i128(x: u128) -> (r: i128)
    requires
        x <= 0x80000000000000000000000000000000,
    ensures
        r == -(x as int),
{
    let y = 0u128.wrapping_sub(x);
    proof {
        assert(y >= 0x80000000000000000000000000000000 ==> y as i128 == y
            - 0x100000000000000000000000000000000) by (bit_vector);
        assert(y < 0x80000000000000000000000000000000 ==> y as i128 == y) by (bit_vector);
    }
    y as i128
}

/// Reinterprets an unsigned quotient up to `pow2(127)` as a signed value,
/// wrapping the topmost magnitude to the minimum value.
pub fn u128_wrap_to_i128(x: u128) -> (r: i128)
    requires
        x <= 0x80000000000000000000000000000000,
    ensures
        x < 0x80000000000000000000000000000000 ==> r == x,
        x == 0x80000000000000000000000000000000 ==> r == i128::MIN,
{
    proof {
        assert(x == 0x80000000000000000000000000000000 ==> x as i128 == i128::MIN) by (bit_vector);
        assert(x < 0x80000000000000000000000000000000 ==> x as i128 == x) by (bit_vector);
    }
    x as i128
}

/// A quotient of magnitudes can reach the top magnitude `h` only when the
/// dividend magnitude is exactly `h` and the divisor magnitude is 1 -- the
/// minimum-value-divided-by-minus-one case.
pub proof fn lemma_full_quotient(ud: int, vd: int, h: int)
    requires
        0 < ud <= h,
        0 < vd,
        1 <= h,
        ud / vd >= h,
    ensures
        ud == h && vd == 1,
{
    lemma_fundamental_div_mod(ud, vd);
    lemma_mod_bound(ud, vd);
    lemma_div_basics(ud);
    assert(vd * (ud / vd) >= vd * h) by (nonlinear_arith)
        requires
            0 < vd,
            ud / vd >= h,
    ;
    assert(vd >= 2 ==> vd * h >= 2 * h) by (nonlinear_arith)
        requires
            1 <= h,
    ;
}

/// The magnitudes of both signed operands, as unsigned values.
pub fn i8_magnitudes(duo: i8, div: i8) -> (r: (u8, u8))
    ensures
        r.0 == abs(duo as int),
        r.1 == abs(div as int),
{
    let ud = if duo < 0 { i8_abs(duo) } else { duo as u8 };
    let vd = if div < 0 { i8_abs(div) } else { div as u8 };
    (ud, vd)
}

/// Restores the signs of a signed division from the quotient and remainder
/// of the magnitudes: the quotient is negated when the operand signs
/// differ, the remainder follows the dividend, and the minimum value
/// divided by minus one wraps back to the minimum value.
pub fn i8_apply_signs(duo: i8, div: i8, uq: u8, ur: u8) -> (r: (i8, i8))
    requires
        div != 0,
        uq == abs(duo as int) as int / abs(div as int) as int,
        ur == abs(duo as int) as int % abs(div as int) as int,
    ensures
        duo == i8::MIN && div == -1 ==> r.0 == i8::MIN && r.1 == 0,
        !(duo == i8::MIN && div == -1) ==> r.0 == div_trunc(duo as int, div as int) && r.1
            == rem_trunc(duo as int, div as int),
{
    let ghost ud = abs(duo as int) as int;
    let ghost vd = abs(div as int) as int;
    proof {
        lemma_div_nonincreasing(ud, vd);
        lemma_mod_bound(ud, vd);
        lemma_fundamental_div_mod(ud, vd);
    }
    match (duo < 0, div < 0) {
        (false, false) => (uq as i8, ur as i8),
        (true, false) => {
            proof {
                assert(div * -(uq as int) == -(div * (uq as int))) by (nonlinear_arith);
            }
            (u8_neg_to_i8(uq), u8_neg_to_i8(ur))
        },
        (false, true) => {
            proof {
                assert(div as int * -(uq as int) == vd * (uq as int)) by (nonlinear_arith)
                    requires
                        vd == -(div as int),
                ;
            }
            (u8_neg_to_i8(uq), ur as i8)
        },
        (true, true) => {
            proof {
                assert(div as int * (uq as int) == -(vd * (uq as int))) by (nonlinear_arith)
                    requires
                        vd == -(div as int),
                ;
                if uq >= 0x80 {
                    lemma_full_quotient(ud, vd, 0x80);
                }
            }
            (u8_wrap_to_i8(uq), u8_neg_to_i8(ur))
        },
    }
}

/// The magnitudes of both signed operands, as unsigned values.
pub fn i16_magnitudes(duo: i16, div: i16) -> (r: (u16, u16))
    ensures
        r.0 == abs(duo as int),
        r.1 == abs(div as int),
{
    let ud = if duo < 0 { i16_abs(duo) } else { duo as u16 };
    let vd = if div < 0 { i16_abs(div) } else { div as u16 };
    (ud, vd)
}

/// Restores the signs of a signed division from the quotient and remainder
/// of the magnitudes: the quotient is negated when the operand signs
/// differ, the remainder follows the dividend, and the minimum value
/// divided by minus one wraps back to the minimum value.
pub fn i16_apply_signs(duo: i16, div: i16, uq: u16, ur: u16) -> (r: (i16, i16))
    requires
        div != 0,
        uq == abs(duo as int) as int / abs(div as int) as int,
        ur == abs(duo as int) as int % abs(div as int) as int,
    ensures
        duo == i16::MIN && div == -1 ==> r.0 == i16::MIN && r.1 == 0,
        !(duo == i16::MIN && div == -1) ==> r.0 == div_trunc(duo as int, div as int) && r.1
            == rem_trunc(duo as int, div as int),
{
    let ghost ud = abs(duo as int) as int;
    let ghost vd = abs(div as int) as int;
    proof {
        lemma_div_nonincreasing(ud, vd);
        lemma_mod_bound(ud, vd);
        lemma_fundamental_div_mod(ud, vd);
    }
    match (duo < 0, div < 0) {
        (false, false) => (uq as i16, ur as i16),
        (true, false) => {
            proof {
                assert(div * -(uq as int) == -(div * (uq as int))) by (nonlinear_arith);
            }
            (u16_neg_to_i16(uq), u16_neg_to_i16(ur))
        },
        (false, true) => {
            proof {
                assert(div as int * -(uq as int) == vd * (uq as int)) by (nonlinear_arith)
                    requires
                        vd == -(div as int),
                ;
            }
            (u16_neg_to_i16(uq), ur as i16)
        },
        (true, true) => {
            proof {
                assert(div as int * (uq as int) == -(vd * (uq as int))) by (nonlinear_arith)
                    requires
                        vd == -(div as int),
                ;
                if uq >= 0x8000 {
                    lemma_full_quotient(ud, vd, 0x8000);
                }
            }
            (u16_wrap_to_i16(uq), u16_neg_to_i16(ur))
        },
    }
}

/// The magnitudes of both signed operands, as unsigned values.
pub fn i32_magnitudes(duo: i32, div: i32) -> (r: (u32, u32))
    ensures
        r.0 == abs(duo as int),
        r.1 == abs(div as int),
{
    let ud = if duo < 0 { i32_abs(duo) } else { duo as u32 };
    let vd = if div < 0 { i32_abs(div) } else { div as u32 };
    (ud, vd)
}

/// Restores the signs of a signed division from the quotient and remainder
/// of the magnitudes: the quotient is negated when the operand signs
/// differ, the remainder follows the dividend, and the minimum value
/// divided by minus one wraps back to the minimum value.
pub fn i32_apply_signs(duo: i32, div: i32, uq: u32, ur: u32) -> (r: (i32, i32))
    requires
        div != 0,
        uq == abs(duo as int) as int / abs(div as int) as int,
        ur == abs(duo as int) as int % abs(div as int) as int,
    ensures
        duo == i32::MIN && div == -1 ==> r.0 == i32::MIN && r.1 == 0,
        !(duo == i32::MIN && div == -1) ==> r.0 == div_trunc(duo as int, div as int) && r.1
            == rem_trunc(duo as int, div as int),
{
    let ghost ud = abs(duo as int) as int;
    let ghost vd = abs(div as int) as int;
    proof {
        lemma_div_nonincreasing(ud, vd);
        lemma_mod_bound(ud, vd);
        lemma_fundamental_div_mod(ud, vd);
    }
    match (duo < 0, div < 0) {
        (false, false) => (uq as i32, ur as i32),
        (true, false) => {
            proof {
                assert(div * -(uq as int) == -(div * (uq as int))) by (nonlinear_arith);
            }
            (u32_neg_to_i32(uq), u32_neg_to_i32(ur))
        },
        (false, true) => {
            proof {
                assert(div as int * -(uq as int) == vd * (uq as int)) by (nonlinear_arith)
                    requires
                        vd == -(div as int),
                ;
            }
            (u32_neg_to_i32(uq), ur as i32)
        },
        (true, true) => {
            proof {
                assert(div as int * (uq as int) == -(vd * (uq as int))) by (nonlinear_arith)
                    requires
                        vd == -(div as int),
                ;
                if uq >= 0x80000000 {
                    lemma_full_quotient(ud, vd, 0x80000000);
                }
            }
            (u32_wrap_to_i32(uq), u32_neg_to_i32(ur))
        },
    }
}

/// The magnitudes of both signed operands, as unsigned values.
pub fn i64_magnitudes(duo: i64, div: i64) -> (r: (u64, u64))
    ensures
        r.0 == abs(duo as int),
        r.1 == abs(div as int),
{
    let ud = if duo < 0 { i64_abs(duo) } else { duo as u64 };
    let vd = if div < 0 { i64_abs(div) } else { div as u64 };
    (ud, vd)
}

/// Restores the signs of a signed division from the quotient and remainder
/// of the magnitudes: the quotient is negated when the operand signs
/// differ, the remainder follows the dividend, and the minimum value
/// divided by minus one wraps back to the minimum value.
pub fn i64_apply_signs(duo: i64, div: i64, uq: u64, ur: u64) -> (r: (i64, i64))
    requires
        div != 0,
        uq == abs(duo as int) as int / abs(div as int) as int,
        ur == abs(duo as int) as int % abs(div as int) as int,
    ensures
        duo == i64::MIN && div == -1 ==> r.0 == i64::MIN && r.1 == 0,
        !(duo == i64::MIN && div == -1) ==> r.0 == div_trunc(duo as int, div as int) && r.1
            == rem_trunc(duo as int, div as int),
{
    let ghost ud = abs(duo as int) as int;
    let ghost vd = abs(div as int) as int;
    proof {
        lemma_div_nonincreasing(ud, vd);
        lemma_mod_bound(ud, vd);
        lemma_fundamental_div_mod(ud, vd);
    }
    match (duo < 0, div < 0) {
        (false, false) => (uq as i64, ur as i64),
        (true, false) => {
            proof {
                assert(div * -(uq as int) == -(div * (uq as int))) by (nonlinear_arith);
            }
            (u64_neg_to_i64(uq), u64_neg_to_i64(ur))
        },
        (false, true) => {
            proof {
                assert(div as int * -(uq as int) == vd * (uq as int)) by (nonlinear_arith)
                    requires
                        vd == -(div as int),
                ;
            }
            (u64_neg_to_i64(uq), ur as i64)
        },
        (true, true) => {
            proof {
                assert(div as int * (uq as int) == -(vd * (uq as int))) by (nonlinear_arith)
                    requires
                        vd == -(div as int),
                ;
                if uq >= 0x8000000000000000 {
                    lemma_full_quotient(ud, vd, 0x8000000000000000);
                }
            }
            (u64_wrap_to_i64(uq), u64_neg_to_i64(ur))
        },
    }
}

/// The magnitudes of both signed operands, as unsigned values.
pub fn i128_magnitudes(duo: i128, div: i128) -> (r: (u128, u128))
    ensures
        r.0 == abs(duo as int),
        r.1 == abs(div as int),
{
    let ud = if duo < 0 { i128_abs(duo) } else { duo as u128 };
    let vd = if div < 0 { i128_abs(div) } else { div as u128 };
    (ud, vd)
}

/// Restores the signs of a signed division from the quotient and remainder
/// of the magnitudes: the quotient is negated when the operand signs
/// differ, the remainder follows the dividend, and the minimum value
/// divided by minus one wraps back to the minimum value.
pub fn i128_apply_signs(duo: i128, div: i128, uq: u128, ur: u128) -> (r: (i128, i128))
    requires
        div != 0,
        uq == abs(duo as int) as int / abs(div as int) as int,
        ur == abs(duo as int) as int % abs(div as int) as int,
    ensures
        duo == i128::MIN && div == -1 ==> r.0 == i128::MIN && r.1 == 0,
        !(duo == i128::MIN && div == -1) ==> r.0 == div_trunc(duo as int, div as int) && r.1
            == rem_trunc(duo as int, div as int),
{
    let ghost ud = abs(duo as int) as int;
    let ghost vd = abs(div as int) as int;
    proof {
        lemma_div_nonincreasing(ud, vd);
        lemma_mod_bound(ud, vd);
        lemma_fundamental_div_mod(ud, vd);
    }
    match (duo < 0, div < 0) {
        (false, false) => (uq as i128, ur as i128),
        (true, false) => {
            proof {
                assert(div * -(uq as int) == -(div * (uq as int))) by (nonlinear_arith);
            }
            (u128_neg_to_i128(uq), u128_neg_to_i128(ur))
        },
        (false, true) => {
            proof {
                assert(div as int * -(uq as int) == vd * (uq as int)) by (nonlinear_arith)
                    requires
                        vd == -(div as int),
                ;
            }
            (u128_neg_to_i128(uq), ur as i128)
        },
        (true, true) => {
            proof {
                assert(div as int * (uq as int) == -(vd * (uq as int))) by (nonlinear_arith)
                    requires
                        vd == -(div as int),
                ;
                if uq >= 0x80000000000000000000000000000000 {
                    lemma_full_quotient(ud, vd, 0x80000000000000000000000000000000);
                }
            }
            (u128_wrap_to_i128(uq), u128_neg_to_i128(ur))
        },
    }
}

} // verus!
