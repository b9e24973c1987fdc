use specialized_div_rem::{
    u16_normalization_shift, u32_normalization_shift, u64_normalization_shift,
    u8_normalization_shift,
};

// the leading-zero-based computation and the bisection search must agree,
// exhaustively over all 8-bit operand pairs
#[test]
fn normalization_shift_strategies_agree_8bit() {
    for duo in 1..=255u8 {
        for div in 1..=duo {
            let by_lz = u8_normalization_shift(duo, div, true, true);
            let by_bisection = u8_normalization_shift(duo, div, true, false);
            assert_eq!(by_lz, by_bisection);
            // the shift fully normalizes the divisor against the dividend
            let shifted = (div as u32) << by_lz;
            assert!(shifted <= duo as u32);
            assert!(duo as u32 > shifted || duo as u32 == shifted);
            assert!((duo as u32) < shifted * 2);
        }
    }
}

#[test]
fn normalization_shift_strategies_agree_samples() {
    let pairs16: [(u16, u16); 6] =
        [(0xffff, 1), (0x8000, 0x7fff), (300, 7), (0x4001, 3), (9, 9), (0xabcd, 0xab)];
    for (duo, div) in pairs16 {
        assert_eq!(
            u16_normalization_shift(duo, div, true, true),
            u16_normalization_shift(duo, div, true, false)
        );
    }
    let pairs32: [(u32, u32); 5] =
        [(u32::MAX, 1), (0x8000_0000, 0x7fff_ffff), (1 << 20, 3), (12345678, 345), (17, 17)];
    for (duo, div) in pairs32 {
        assert_eq!(
            u32_normalization_shift(duo, div, true, true),
            u32_normalization_shift(duo, div, true, false)
        );
    }
    let pairs64: [(u64, u64); 5] = [
        (u64::MAX, 1),
        (1 << 63, (1 << 63) - 1),
        (1 << 40, 3),
        (0xdead_beef_dead_beef, 0xbeef),
        (21, 21),
    ];
    for (duo, div) in pairs64 {
        assert_eq!(
            u64_normalization_shift(duo, div, true, true),
            u64_normalization_shift(duo, div, true, false)
        );
    }
}

// without full normalization the leading-zero strategy aligns the most
// significant bits exactly
#[test]
fn normalization_shift_alignment_8bit() {
    for duo in 1..=255u8 {
        for div in 1..=duo {
            let s = u8_normalization_shift(duo, div, false, true);
            assert_eq!(
                s,
                div.leading_zeros() - duo.leading_zeros(),
                "duo: {}, div: {}",
                duo,
                div
            );
        }
    }
}
