use complex_sqrt::layout::{F32_DEFAULT_NAN, F64_DEFAULT_NAN};
use complex_sqrt::{sqrt_f32_bits, sqrt_f64_bits};

fn sqrt32(x: f32) -> f32 {
    f32::from_bits(sqrt_f32_bits(x.to_bits()))
}

fn sqrt64(x: f64) -> f64 {
    f64::from_bits(sqrt_f64_bits(x.to_bits()))
}

#[test]
fn f64_four_is_two() {
    assert_eq!(sqrt64(4.0).to_bits(), 2.0f64.to_bits());
}

#[test]
fn f64_two() {
    assert_eq!(sqrt64(2.0), 1.4142135623730951);
}

#[test]
fn f32_two() {
    assert_eq!(sqrt32(2.0), 1.4142135f32);
    assert_eq!(sqrt_f32_bits(0x4000_0000), 0x3FB5_04F3);
}

#[test]
fn signed_zeros_kept() {
    assert_eq!(sqrt64(0.0).to_bits(), 0.0f64.to_bits());
    assert_eq!(sqrt64(-0.0).to_bits(), (-0.0f64).to_bits());
    assert_eq!(sqrt32(0.0).to_bits(), 0.0f32.to_bits());
    assert_eq!(sqrt32(-0.0).to_bits(), (-0.0f32).to_bits());
}

#[test]
fn positive_infinity_kept() {
    assert_eq!(sqrt64(f64::INFINITY), f64::INFINITY);
    assert_eq!(sqrt32(f32::INFINITY), f32::INFINITY);
}

#[test]
fn nan_payload_quieted() {
    // a signalling NaN with payload 1 comes back quiet with the same payload
    assert_eq!(sqrt_f32_bits(0x7F80_0001), 0x7FC0_0001);
    assert_eq!(sqrt_f32_bits(0xFFC0_1234), 0xFFC0_1234);
    assert_eq!(sqrt_f64_bits(0x7FF0_0000_0000_0001), 0x7FF8_0000_0000_0001);
    for bits in [0x7F80_0001u32, 0x7FC0_0000, 0x7FFF_FFFF, 0xFF80_0001, 0xFFFF_FFFF] {
        assert!(sqrt32(f32::from_bits(bits)).is_nan());
    }
    for bits in [0x7FF0_0000_0000_0001u64, 0x7FF8_0000_0000_0000, 0xFFFF_FFFF_FFFF_FFFF] {
        assert!(sqrt64(f64::from_bits(bits)).is_nan());
    }
}

#[test]
fn negatives_give_nan() {
    for x in [-1.0f64, -f64::MIN_POSITIVE, -f64::MAX, -4.0, -f64::INFINITY, -5e-324] {
        assert!(sqrt64(x).is_nan());
        assert_eq!(sqrt64(x).to_bits(), F64_DEFAULT_NAN);
    }
    for x in [-1.0f32, -f32::MAX, -2.0, -f32::INFINITY, -1e-45] {
        assert!(sqrt32(x).is_nan());
        assert_eq!(sqrt32(x).to_bits(), F32_DEFAULT_NAN);
    }
}

#[test]
fn smallest_subnormal() {
    // sqrt(2^-149) = 2^-74.5, rounded to nearest
    let x = f32::from_bits(1);
    assert_eq!(sqrt32(x).to_bits(), x.sqrt().to_bits());
    assert_eq!(sqrt32(x), 2.0f32.powi(-75) * 1.4142135f32);
    let y = f64::from_bits(1);
    assert_eq!(sqrt64(y).to_bits(), y.sqrt().to_bits());
}

#[test]
fn perfect_squares_exact() {
    for k in 1..2000u32 {
        let s = k as f64;
        assert_eq!(sqrt64(s * s), s);
        let t = k as f32;
        assert_eq!(sqrt32(t * t), t);
    }
    assert_eq!(sqrt64(0.25), 0.5);
    assert_eq!(sqrt32(1.0 / 16.0), 0.25);
}

#[test]
fn square_of_root_within_one_ulp() {
    let mut state: u64 = 0x2545_F491_4F6C_DD1D;
    for _ in 0..20000 {
        state = state.wrapping_mul(6364136223846793005).wrapping_add(1442695040888963407);
        let x = f64::from_bits(state >> 2);
        if !x.is_finite() || x == 0.0 {
            continue;
        }
        let y = sqrt64(x);
        let back = y * y;
        if back.is_finite() && x.is_normal() && back.is_normal() {
            let d = (back.to_bits() as i64 - x.to_bits() as i64).abs();
            assert!(d <= 1, "{x:e}");
        }
    }
}

#[test]
fn f32_matches_hardware() {
    let mut bits: u32 = 0;
    loop {
        let x = f32::from_bits(bits);
        let ours = sqrt_f32_bits(bits);
        let theirs = x.sqrt();
        if theirs.is_nan() {
            assert!(f32::from_bits(ours).is_nan());
        } else {
            assert_eq!(ours, theirs.to_bits(), "{bits:#x}");
        }
        match bits.checked_add(0x1235) {
            Some(b) => bits = b,
            None => break,
        }
    }
    for bits in 1..0x2000u32 {
        assert_eq!(sqrt_f32_bits(bits), f32::from_bits(bits).sqrt().to_bits());
    }
}

#[test]
fn f64_matches_hardware() {
    let mut state: u64 = 0x9E37_79B9_7F4A_7C15;
    for i in 0..200000u64 {
        state = state.wrapping_mul(6364136223846793005).wrapping_add(1442695040888963407);
        let bits = if i % 4 == 0 { state >> 12 } else { state & !(1u64 << 63) };
        let x = f64::from_bits(bits);
        let theirs = x.sqrt();
        let ours = sqrt_f64_bits(bits);
        if theirs.is_nan() {
            assert!(f64::from_bits(ours).is_nan());
        } else {
            assert_eq!(ours, theirs.to_bits(), "{bits:#x}");
        }
    }
    for bits in [1u64, 2, 3, 0x000F_FFFF_FFFF_FFFF, 0x0010_0000_0000_0000, 0x7FEF_FFFF_FFFF_FFFF] {
        assert_eq!(sqrt_f64_bits(bits), f64::from_bits(bits).sqrt().to_bits());
    }
}

#[test]
fn monotone_on_samples() {
    let mut prev: u32 = 0;
    let mut bits: u32 = 0;
    while bits < 0x7F80_0000 {
        let r = sqrt_f32_bits(bits);
        assert!(r >= prev);
        prev = r;
        bits += 0x3FF;
    }
    assert!(sqrt64(2.0) <= sqrt64(2.0000000000000004));
}
