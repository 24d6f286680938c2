//! Complex numbers over a generic element type, and a square root for the
//! 32-bit and 64-bit binary floating-point formats computed on their bit
//! patterns with integer operations alone.

pub mod complex;
pub mod layout;
pub mod root;
pub mod sqrt32;
pub mod sqrt64;

pub use complex::{Complex, Sqrt};
pub use sqrt32::sqrt_f32_bits;
pub use sqrt64::sqrt_f64_bits;
