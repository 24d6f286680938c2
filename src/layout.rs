use vstd::prelude::*;

verus! {

// Field layout of the 32-bit binary format: 1 sign bit, 8 exponent bits,
// 23 mantissa bits.
pub const F32_SIGN_MASK: u32 = 0x8000_0000;
pub const F32_EXP_MASK: u32 = 0x7F80_0000;
pub const F32_MANTISSA_MASK: u32 = 0x007F_FFFF;
/// Set in a NaN's mantissa to make it quiet.
pub const F32_QUIET_BIT: u32 = 0x0040_0000;
/// The quiet NaN that an invalid square root returns.
pub const F32_DEFAULT_NAN: u32 = 0x7FC0_0000;
/// Exponent bias: stored exponent field minus true exponent.
pub const F32_MAX_EXP: i32 = 127;
/// The stored field 0 (zero and subnormals), as a true exponent.
pub const F32_DENORMAL_EXP: i32 = -127;
/// The stored field of all ones (infinity and NaN), as a true exponent.
pub const F32_NAN_EXP: i32 = 128;

// Field layout of the 64-bit binary format: 1 sign bit, 11 exponent bits,
// 52 mantissa bits.
pub const F64_SIGN_MASK: u64 = 0x8000_0000_0000_0000;
pub const F64_EXP_MASK: u64 = 0x7FF0_0000_0000_0000;
pub const F64_MANTISSA_MASK: u64 = 0x000F_FFFF_FFFF_FFFF;
/// Set in a NaN's mantissa to make it quiet.
pub const F64_QUIET_BIT: u64 = 0x0008_0000_0000_0000;
/// The quiet NaN that an invalid square root returns.
pub const F64_DEFAULT_NAN: u64 = 0x7FF8_0000_0000_0000;
/// Exponent bias: stored exponent field minus true exponent.
pub const F64_MAX_EXP: i32 = 1023;
/// The stored field 0 (zero and subnormals), as a true exponent.
pub const F64_DENORMAL_EXP: i32 = -1023;
/// The stored field of all ones (infinity and NaN), as a true exponent.
pub const F64_NAN_EXP: i32 = 1024;

} // verus!
