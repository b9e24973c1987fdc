use rand::random;
use specialized_div_rem::{u128_leading_zeros, usize_leading_zeros};

#[test]
fn extra_usize_leading_zeros_test() {
    // binary fuzzer
    let mut x = 0usize;
    let mut ones: usize;
    // creates a mask for indexing the bits of the type
    let bit_indexing_mask = usize::MAX.count_ones() - 1;
    for _ in 0..1000 {
        for _ in 0..4 {
            let r0: u32 = bit_indexing_mask & random::<u32>();
            ones = !0 >> r0;
            let r1: u32 = bit_indexing_mask & random::<u32>();
            let mask = ones.rotate_left(r1);
            match (random(), random()) {
                (false, false) => x |= mask,
                (false, true) => x &= mask,
                (true, _) => x ^= mask,
            }
        }
        if usize_leading_zeros(x) != (x.leading_zeros() as usize) {
            panic!(
                "x: {}, expected: {}, found: {}",
                x,
                x.leading_zeros(),
                usize_leading_zeros(x)
            );
        }
    }
}

#[test]
fn leading_zeros_usize_leading_zeros_test() {
    // binary fuzzer
    let mut x = 0usize;
    let mut ones: usize;
    // creates a mask for indexing the bits of the type
    let bit_indexing_mask = usize::MAX.count_ones() - 1;
    for _ in 0..1000 {
        for _ in 0..4 {
            let r0: u32 = bit_indexing_mask & random::<u32>();
            ones = !0 >> r0;
            let r1: u32 = bit_indexing_mask & random::<u32>();
            let mask = ones.rotate_left(r1);
            match (random(), random()) {
                (false, false) => x |= mask,
                (false, true) => x &= mask,
                (true, _) => x ^= mask,
            }
        }
        if usize_leading_zeros(x) != (x.leading_zeros() as usize) {
            panic!(
                "x: {}, expected: {}, found: {}",
                x,
                x.leading_zeros(),
                usize_leading_zeros(x)
            );
        }
    }
}

#[test]
fn usize_leading_zeros_edge_cases() {
    assert_eq!(usize_leading_zeros(0), usize::BITS as usize);
    assert_eq!(usize_leading_zeros(1), (usize::BITS - 1) as usize);
    assert_eq!(usize_leading_zeros(usize::MAX), 0);
    for i in 0..usize::BITS {
        let x = 1usize << i;
        assert_eq!(usize_leading_zeros(x), x.leading_zeros() as usize);
        assert_eq!(usize_leading_zeros(x | 1), (x | 1).leading_zeros() as usize);
    }
}

#[test]
fn u128_leading_zeros_matches_hardware() {
    assert_eq!(u128_leading_zeros(0), 128);
    assert_eq!(u128_leading_zeros(u128::MAX), 0);
    for i in 0..128 {
        let x = 1u128 << i;
        assert_eq!(u128_leading_zeros(x), x.leading_zeros());
        assert_eq!(u128_leading_zeros(x | 1), (x | 1).leading_zeros());
        assert_eq!(u128_leading_zeros(x - 1), (x - 1).leading_zeros());
    }
}
