//! Software emulation of unsigned and signed integer division (quotient and
//! remainder) for operand widths at or beyond the widest hardware division
//! available, built from narrower division primitives.
//!
//! Every division function returns the exact quotient and remainder of its
//! operands, stated as `ensures` clauses over mathematical integers and
//! proved by Verus. Division by zero is a caller-contract violation and is
//! excluded by `requires div != 0` on every entry point.

mod bits;
mod leading_zeros;
mod norm_shift;
mod signed;
mod binary_long;
mod theory;
mod implement;
mod delegate;
mod trifecta;
mod asymmetric;
mod laws;

pub use asymmetric::{
    i128_div_rem_asymmetric, i64_div_rem_asymmetric, u128_div_rem_asymmetric,
    u64_div_rem_asymmetric,
};
pub use binary_long::{
    i16_div_rem_binary_long, i32_div_rem_binary_long, i64_div_rem_binary_long,
    i8_div_rem_binary_long, u16_div_rem_binary_long, u32_div_rem_binary_long,
    u64_div_rem_binary_long, u8_div_rem_binary_long,
};
pub use delegate::{
    i128_div_rem_delegate, i32_div_rem_delegate, i64_div_rem_delegate, u128_div_rem_delegate,
    u32_div_rem_delegate, u64_div_rem_delegate,
};
pub use implement::{
    u128_by_u64_div_rem, u128_div_asymmetric, u16_by_u16_div_rem, u32_by_u32_div_rem,
    u64_by_u32_div_rem, u64_by_u64_div_rem,
};
pub use laws::{
    lemma_quotient_remainder_unique,
    lemma_division_identity_i128, lemma_division_identity_i16, lemma_division_identity_i32,
    lemma_division_identity_i64, lemma_division_identity_i8, lemma_division_identity_u128,
    lemma_division_identity_u16, lemma_division_identity_u32, lemma_division_identity_u64,
    lemma_division_identity_u8,
};
pub use trifecta::{
    i128_div_rem_trifecta, i64_div_rem_trifecta, u128_div_rem_trifecta, u64_div_rem_trifecta,
};
pub use leading_zeros::{u128_leading_zeros, usize_leading_zeros};
pub use norm_shift::{
    lemma_normalization_shift_unique, u16_normalization_shift, u32_normalization_shift,
    u64_normalization_shift, u8_normalization_shift,
};
pub use signed::{div_trunc, lemma_rem_trunc_sign, rem_trunc};
