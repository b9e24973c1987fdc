use specialized_div_rem::{
    i128_div_rem_asymmetric, i128_div_rem_delegate, i128_div_rem_trifecta,
    i16_div_rem_binary_long, i32_div_rem_binary_long, i32_div_rem_delegate,
    i64_div_rem_asymmetric, i64_div_rem_binary_long, i64_div_rem_delegate, i64_div_rem_trifecta,
    i8_div_rem_binary_long, u128_by_u64_div_rem, u128_div_asymmetric, u128_div_rem_asymmetric,
    u128_div_rem_delegate, u128_div_rem_trifecta, u16_by_u16_div_rem, u16_div_rem_binary_long,
    u32_by_u32_div_rem, u32_div_rem_binary_long, u32_div_rem_delegate, u64_by_u32_div_rem,
    u64_by_u64_div_rem, u64_div_rem_asymmetric, u64_div_rem_binary_long, u64_div_rem_delegate,
    u64_div_rem_trifecta, u8_div_rem_binary_long,
};

#[test]
fn sanity_test() {
    assert_eq!(u128_div_asymmetric(1337 << 63, 42), 293610676506543696554);
}

// 8-bit unsigned: duo = 0b10110010 (178), div = 0b00000110 (6) gives
// quotient 29 and remainder 4.
#[test]
fn example_8bit_long_division() {
    assert_eq!(u8_div_rem_binary_long(0b10110010, 0b00000110), (29, 4));
    assert_eq!(i8_div_rem_binary_long(0b0110010, 0b0000110), (8, 2));
}

// 128-bit dividend and divisor of near-equal magnitude (120 significant
// bits each) exercise the "quotient is 0 or 1" fast path.
#[test]
fn example_near_equal_magnitudes_128() {
    let duo: u128 = (1u128 << 120) - 1;
    let div: u128 = (1u128 << 119) + 1;
    let expected = (duo / div, duo % div);
    assert_eq!(expected.0, 1);
    assert_eq!(u128_div_rem_delegate(duo, div), expected);
    assert_eq!(u128_div_rem_trifecta(duo, div), expected);
    assert_eq!(u128_div_rem_asymmetric(duo, div), expected);
}

// 128-bit all-ones dividend with a short divisor exercises the
// short/delegated division path.
#[test]
fn example_short_divisor_128() {
    let duo: u128 = u128::MAX;
    let div: u128 = 8;
    let expected = (duo / div, duo % div);
    assert_eq!(u128_div_rem_delegate(duo, div), expected);
    assert_eq!(u128_div_rem_trifecta(duo, div), expected);
    assert_eq!(u128_div_rem_asymmetric(duo, div), expected);
    assert_eq!(u128_div_asymmetric(duo, div), expected.0);
}

#[test]
fn binary_long_8_exhaustive() {
    for lhs in 0..=255u8 {
        for rhs in 1..=255u8 {
            assert_eq!(u8_div_rem_binary_long(lhs, rhs), (lhs / rhs, lhs % rhs));
            let (slhs, srhs) = (lhs as i8, rhs as i8);
            if srhs != 0 {
                assert_eq!(
                    i8_div_rem_binary_long(slhs, srhs),
                    (slhs.wrapping_div(srhs), slhs.wrapping_rem(srhs))
                );
            }
        }
    }
    // negative divisors as well
    for lhs in 0..=255u8 {
        for rhs in 0..=255u8 {
            let (slhs, srhs) = (lhs as i8, -(rhs as i32) as i8);
            if srhs != 0 {
                assert_eq!(
                    i8_div_rem_binary_long(slhs, srhs),
                    (slhs.wrapping_div(srhs), slhs.wrapping_rem(srhs))
                );
            }
        }
    }
}

fn patterns64() -> Vec<u64> {
    let mut v: Vec<u64> = vec![0, 1, 2, 3, 5, 7, u64::MAX, u64::MAX - 1, 0xaaaa_aaaa_aaaa_aaaa];
    let mut len = 0;
    while len < 64 {
        let ones = !0u64 >> len;
        let mut shift = 0;
        while shift <= len {
            v.push(ones << shift);
            shift += 5;
        }
        len += 3;
    }
    for i in 0..64 {
        v.push(1u64 << i);
        v.push((1u64 << i).wrapping_sub(1));
        v.push((1u64 << i) | 1);
    }
    v
}

// every composing algorithm must agree with native hardware division
#[test]
fn cross_algorithm_equivalence_64() {
    let vals = patterns64();
    for &lhs in &vals {
        for &rhs in &vals {
            if rhs != 0 {
                let expected = (lhs / rhs, lhs % rhs);
                assert_eq!(u64_div_rem_binary_long(lhs, rhs), expected);
                assert_eq!(u64_div_rem_delegate(lhs, rhs), expected);
                assert_eq!(u64_div_rem_trifecta(lhs, rhs), expected);
                assert_eq!(u64_div_rem_asymmetric(lhs, rhs), expected);
                let (slhs, srhs) = (lhs as i64, rhs as i64);
                let sexpected = (slhs.wrapping_div(srhs), slhs.wrapping_rem(srhs));
                assert_eq!(i64_div_rem_binary_long(slhs, srhs), sexpected);
                assert_eq!(i64_div_rem_delegate(slhs, srhs), sexpected);
                assert_eq!(i64_div_rem_trifecta(slhs, srhs), sexpected);
                assert_eq!(i64_div_rem_asymmetric(slhs, srhs), sexpected);
            }
        }
    }
}

fn patterns128() -> Vec<u128> {
    let mut v: Vec<u128> = vec![0, 1, 2, 3, 5, 42, u128::MAX, u128::MAX - 1];
    let mut len = 0;
    while len < 128 {
        let ones = !0u128 >> len;
        let mut shift = 0;
        while shift <= len {
            v.push(ones << shift);
            shift += 11;
        }
        len += 7;
    }
    for i in 0..128 {
        if i % 3 == 0 {
            v.push(1u128 << i);
            v.push((1u128 << i).wrapping_sub(1));
            v.push((1u128 << i) | 0b1011);
        }
    }
    v
}

#[test]
fn cross_algorithm_equivalence_128() {
    let vals = patterns128();
    for &lhs in &vals {
        for &rhs in &vals {
            if rhs != 0 {
                let expected = (lhs / rhs, lhs % rhs);
                assert_eq!(u128_div_rem_delegate(lhs, rhs), expected);
                assert_eq!(u128_div_rem_trifecta(lhs, rhs), expected);
                assert_eq!(u128_div_rem_asymmetric(lhs, rhs), expected);
                let (slhs, srhs) = (lhs as i128, rhs as i128);
                let sexpected = (slhs.wrapping_div(srhs), slhs.wrapping_rem(srhs));
                assert_eq!(i128_div_rem_delegate(slhs, srhs), sexpected);
                assert_eq!(i128_div_rem_trifecta(slhs, srhs), sexpected);
                assert_eq!(i128_div_rem_asymmetric(slhs, srhs), sexpected);
            }
        }
    }
}

#[test]
fn cross_algorithm_equivalence_16_32() {
    let mut vals32: Vec<u32> = vec![0, 1, 2, 3, u32::MAX];
    for i in 0..32 {
        vals32.push(1u32 << i);
        vals32.push((1u32 << i).wrapping_sub(1));
        vals32.push((1u32 << i) | 0xf0f);
        vals32.push(u32::MAX >> i);
    }
    for &lhs in &vals32 {
        for &rhs in &vals32 {
            if rhs != 0 {
                let expected = (lhs / rhs, lhs % rhs);
                assert_eq!(u32_div_rem_binary_long(lhs, rhs), expected);
                assert_eq!(u32_div_rem_delegate(lhs, rhs), expected);
                let (slhs, srhs) = (lhs as i32, rhs as i32);
                let sexpected = (slhs.wrapping_div(srhs), slhs.wrapping_rem(srhs));
                assert_eq!(i32_div_rem_binary_long(slhs, srhs), sexpected);
                assert_eq!(i32_div_rem_delegate(slhs, srhs), sexpected);
            }
            let l16 = lhs as u16;
            let r16 = rhs as u16;
            if r16 != 0 {
                assert_eq!(u16_div_rem_binary_long(l16, r16), (l16 / r16, l16 % r16));
                let (s16, t16) = (l16 as i16, r16 as i16);
                assert_eq!(
                    i16_div_rem_binary_long(s16, t16),
                    (s16.wrapping_div(t16), s16.wrapping_rem(t16))
                );
            }
        }
    }
}

// dividing the minimum value by minus one must wrap, not trap
#[test]
fn signed_min_by_minus_one() {
    assert_eq!(i8_div_rem_binary_long(i8::MIN, -1), (i8::MIN, 0));
    assert_eq!(i16_div_rem_binary_long(i16::MIN, -1), (i16::MIN, 0));
    assert_eq!(i32_div_rem_binary_long(i32::MIN, -1), (i32::MIN, 0));
    assert_eq!(i64_div_rem_binary_long(i64::MIN, -1), (i64::MIN, 0));
    assert_eq!(i32_div_rem_delegate(i32::MIN, -1), (i32::MIN, 0));
    assert_eq!(i64_div_rem_delegate(i64::MIN, -1), (i64::MIN, 0));
    assert_eq!(i128_div_rem_delegate(i128::MIN, -1), (i128::MIN, 0));
    assert_eq!(i64_div_rem_trifecta(i64::MIN, -1), (i64::MIN, 0));
    assert_eq!(i128_div_rem_trifecta(i128::MIN, -1), (i128::MIN, 0));
    assert_eq!(i64_div_rem_asymmetric(i64::MIN, -1), (i64::MIN, 0));
    assert_eq!(i128_div_rem_asymmetric(i128::MIN, -1), (i128::MIN, 0));
}

// the division identity and remainder bounds, checked at runtime the same
// way the contracts state them
#[test]
fn division_identity_and_remainder_bounds() {
    let vals = patterns64();
    for &lhs in &vals {
        for &rhs in &vals {
            if rhs != 0 {
                let (quo, rem) = u64_div_rem_trifecta(lhs, rhs);
                assert_eq!(rhs.wrapping_mul(quo).wrapping_add(rem), lhs);
                assert!(rem < rhs);
                let (slhs, srhs) = (lhs as i64, rhs as i64);
                let (squo, srem) = i64_div_rem_trifecta(slhs, srhs);
                assert_eq!(srhs.wrapping_mul(squo).wrapping_add(srem), slhs);
                if srem != 0 {
                    assert_eq!(srem < 0, slhs < 0);
                    if srhs != i64::MIN {
                        assert!(srem.wrapping_abs() < srhs.wrapping_abs());
                    } else {
                        assert_ne!(srem, i64::MIN);
                    }
                }
            }
        }
    }
}

#[test]
fn division_primitives() {
    assert_eq!(u16_by_u16_div_rem(0xffff, 0x10), (0xfff, 0xf));
    assert_eq!(u32_by_u32_div_rem(0xffff_ffff, 0x10), (0xfff_ffff, 0xf));
    assert_eq!(u64_by_u64_div_rem(u64::MAX, 0x10), (u64::MAX >> 4, 0xf));
    // asymmetric primitives, with the high half below the divisor
    let duo64: u64 = (7u64 << 32) | 9;
    assert_eq!(
        u64_by_u32_div_rem(duo64, 8),
        ((duo64 / 8) as u32, (duo64 % 8) as u32)
    );
    assert_eq!(u64_by_u32_div_rem(0x1_0000_0001, 2), (0x8000_0000, 1));
    let duo128: u128 = (5u128 << 64) | 3;
    assert_eq!(
        u128_by_u64_div_rem(duo128, 6),
        ((duo128 / 6) as u64, (duo128 % 6) as u64)
    );
}

// deterministic fuzzing over all variants, mixing wide and narrow operands
#[test]
fn deterministic_fuzz_all_variants() {
    let mut state: u128 = 0x243f_6a88_85a3_08d3_1319_8a2e_0370_7344;
    let mut next = move || {
        // a simple linear congruential step, then shift by a varying amount
        state = state
            .wrapping_mul(0x5851_f42d_4c95_7f2d_1405_7b7e_f767_814f)
            .wrapping_add(0x9e37_79b9_7f4a_7c15);
        let shift = (state >> 121) as u32;
        state >> shift
    };
    for _ in 0..20000 {
        let lhs = next();
        let rhs = next();
        if rhs != 0 {
            let expected = (lhs / rhs, lhs % rhs);
            assert_eq!(u128_div_rem_delegate(lhs, rhs), expected);
            assert_eq!(u128_div_rem_trifecta(lhs, rhs), expected);
            assert_eq!(u128_div_rem_asymmetric(lhs, rhs), expected);
            let (slhs, srhs) = (lhs as i128, rhs as i128);
            let sexpected = (slhs.wrapping_div(srhs), slhs.wrapping_rem(srhs));
            assert_eq!(i128_div_rem_delegate(slhs, srhs), sexpected);
            assert_eq!(i128_div_rem_trifecta(slhs, srhs), sexpected);
            assert_eq!(i128_div_rem_asymmetric(slhs, srhs), sexpected);
        }
        let (l64, r64) = (lhs as u64, rhs as u64);
        if r64 != 0 {
            let expected = (l64 / r64, l64 % r64);
            assert_eq!(u64_div_rem_binary_long(l64, r64), expected);
            assert_eq!(u64_div_rem_delegate(l64, r64), expected);
            assert_eq!(u64_div_rem_trifecta(l64, r64), expected);
            assert_eq!(u64_div_rem_asymmetric(l64, r64), expected);
        }
        let (l32, r32) = (lhs as u32, rhs as u32);
        if r32 != 0 {
            let expected = (l32 / r32, l32 % r32);
            assert_eq!(u32_div_rem_binary_long(l32, r32), expected);
            assert_eq!(u32_div_rem_delegate(l32, r32), expected);
        }
    }
}
