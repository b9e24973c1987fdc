//! Division primitives: native same-width divisions used as the half-size
//! building blocks of the composing algorithms, and asymmetric primitives
//! that divide a double-width dividend by a single-width divisor when the
//! quotient is known to fit.

use crate::asymmetric::u128_div_rem_asymmetric;
use crate::bits::{lemma_div_bound_u, lemma_pow2_above64};
use vstd::arithmetic::div_mod::*;
use vstd::arithmetic::mul::*;
use vstd::arithmetic::power2::*;
use vstd::prelude::*;

verus! {

/// Computes the quotient and remainder of `duo` divided by `div` and
/// returns them as a tuple.
pub fn u16_by_u16_div_rem(duo: u16, div: u16) -> (r: (u16, u16))
    requires
        div != 0,
    ensures
        r.0 == duo as int / div as int,
        r.1 == duo as int % div as int,
{
    (duo / div, duo % div)
}

/// Computes the quotient and remainder of `duo` divided by `div` and
/// returns them as a tuple.
pub fn u32_by_u32_div_rem(duo: u32, div: u32) -> (r: (u32, u32))
    requires
        div != 0,
    ensures
        r.0 == duo as int / div as int,
        r.1 == duo as int % div as int,
{
    (duo / div, duo % div)
}

/// Computes the quotient and remainder of `duo` divided by `div` and
/// returns them as a tuple.
pub fn u64_by_u64_div_rem(duo: u64, div: u64) -> (r: (u64, u64))
    requires
        div != 0,
    ensures
        r.0 == duo as int / div as int,
        r.1 == duo as int % div as int,
{
    (duo / div, duo % div)
}

/// Divides a 64-bit dividend by a 32-bit divisor and returns the quotient
/// and remainder, both of which fit in 32 bits because the high half of the
/// dividend is below the divisor. This stands in for the asymmetric
/// division instruction some architectures provide.
pub fn u64_by_u32_div_rem(duo: u64, div: u32) -> (r: (u32, u32))
    requires
        div != 0,
        duo < div * 0x100000000,
    ensures
        r.0 == duo as int / div as int,
        r.1 == duo as int % div as int,
{
    proof {
        lemma_div_bound_u(duo as int, div as int, 0x100000000);
        lemma_mod_bound(duo as int, div as int);
    }
    ((duo / (div as u64)) as u32, (duo % (div as u64)) as u32)
}

/// Divides a 128-bit dividend by a 64-bit divisor and returns the quotient
/// and remainder, both of which fit in 64 bits because the high half of the
/// dividend is below the divisor. This stands in for the asymmetric
/// division instruction some architectures provide.
pub fn u128_by_u64_div_rem(duo: u128, div: u64) -> (r: (u64, u64))
    requires
        div != 0,
        duo < div * 0x10000000000000000,
    ensures
        r.0 == duo as int / div as int,
        r.1 == duo as int % div as int,
{
    proof {
        lemma_div_bound_u(duo as int, div as int, 0x10000000000000000);
        lemma_mod_bound(duo as int, div as int);
    }
    ((duo / (div as u128)) as u64, (duo % (div as u128)) as u64)
}

/// Widening multiplication: the full product of two half-width values,
/// split into its low and high halves.
pub(crate) fn carrying_mul_u64(lhs: u64, rhs: u64) -> (r: (u64, u64))
    ensures
        lhs * rhs == r.0 + r.1 * pow2(64),
{
    proof {
        lemma2_to64_rest();
        lemma_pow2_above64();
        lemma_pow2_adds(64, 64);
        lemma_mul_upper_bound(lhs as int, 0xffffffffffffffff, rhs as int, 0xffffffffffffffff);
    }
    let tmp = (lhs as u128) * (rhs as u128);
    proof {
        lemma_fundamental_div_mod(tmp as int, pow2(64) as int);
        lemma_mod_bound(tmp as int, pow2(64) as int);
        lemma_div_bound_u(tmp as int, pow2(64) as int, pow2(64) as int);
    }
    ((tmp % 0x10000000000000000) as u64, (tmp / 0x10000000000000000) as u64)
}

/// Widening multiply-add: the full product of two half-width values plus a
/// half-width carry, split into its low and high halves.
pub(crate) fn carrying_mul_add_u64(lhs: u64, mul: u64, add_in: u64) -> (r: (u64, u64))
    ensures
        lhs * mul + add_in == r.0 + r.1 * pow2(64),
{
    proof {
        lemma2_to64_rest();
        lemma_pow2_above64();
        lemma_pow2_adds(64, 64);
        lemma_mul_upper_bound(lhs as int, 0xffffffffffffffff, mul as int, 0xffffffffffffffff);
    }
    let tmp = (lhs as u128) * (mul as u128) + (add_in as u128);
    proof {
        lemma_fundamental_div_mod(tmp as int, pow2(64) as int);
        lemma_mod_bound(tmp as int, pow2(64) as int);
        lemma_div_bound_u(tmp as int, pow2(64) as int, pow2(64) as int);
    }
    ((tmp % 0x10000000000000000) as u64, (tmp / 0x10000000000000000) as u64)
}

/// Widening multiplication: the full product of two half-width values,
/// split into its low and high halves.
pub(crate) fn carrying_mul_u32(lhs: u32, rhs: u32) -> (r: (u32, u32))
    ensures
        lhs * rhs == r.0 + r.1 * pow2(32),
{
    proof {
        lemma2_to64();
        lemma2_to64_rest();
        lemma_pow2_adds(32, 32);
        lemma_mul_upper_bound(lhs as int, 0xffffffff, rhs as int, 0xffffffff);
    }
    let tmp = (lhs as u64) * (rhs as u64);
    proof {
        lemma_fundamental_div_mod(tmp as int, pow2(32) as int);
        lemma_mod_bound(tmp as int, pow2(32) as int);
        lemma_div_bound_u(tmp as int, pow2(32) as int, pow2(32) as int);
    }
    ((tmp % 0x100000000) as u32, (tmp / 0x100000000) as u32)
}

/// Widening multiply-add: the full product of two half-width values plus a
/// half-width carry, split into its low and high halves.
pub(crate) fn carrying_mul_add_u32(lhs: u32, mul: u32, add_in: u32) -> (r: (u32, u32))
    ensures
        lhs * mul + add_in == r.0 + r.1 * pow2(32),
{
    proof {
        lemma2_to64();
        lemma2_to64_rest();
        lemma_pow2_adds(32, 32);
        lemma_mul_upper_bound(lhs as int, 0xffffffff, mul as int, 0xffffffff);
    }
    let tmp = (lhs as u64) * (mul as u64) + (add_in as u64);
    proof {
        lemma_fundamental_div_mod(tmp as int, pow2(32) as int);
        lemma_mod_bound(tmp as int, pow2(32) as int);
        lemma_div_bound_u(tmp as int, pow2(32) as int, pow2(32) as int);
    }
    ((tmp % 0x100000000) as u32, (tmp / 0x100000000) as u32)
}

/// Returns the quotient of `duo` divided by `div`.
pub fn u128_div_asymmetric(duo: u128, div: u128) -> (r: u128)
    requires
        div != 0,
    ensures
        r == duo as int / div as int,
{
    u128_div_rem_asymmetric(duo, div).0
}

} // verus!
