use complex_sqrt::{sqrt_f64_bits, Complex, Sqrt};
use std::ops::{Add, Mul};

#[test]
fn add() {
    let c1 = Complex::new(13, 123);
    let c2 = Complex::new(576, 362);

    assert_eq!(c1 + c2, Complex::new(13 + 576, 123 + 362));
}

#[test]
fn sub() {
    let c1 = Complex::new(13, 123);
    let c2 = Complex::new(576, 362);

    assert_eq!(c1 - c2, Complex::new(13 - 576, 123 - 362));
}

#[test]
fn mul() {
    let c1 = Complex::new(13, 123);
    let c2 = Complex::new(576, 362);

    assert_eq!(
        c1 * c2,
        Complex::new(13 * 576 - 123 * 362, 13 * 362 + 576 * 123)
    );
}

#[test]
fn div() {
    let c1 = Complex::new(13_i64, 123);
    let c2 = Complex::new(576, 362);

    let num = c1 * Complex::new(576, -362);
    let denom = 576 * 576 + 362 * 362;
    let res = num / Complex::from(denom);

    assert_eq!(c1 / c2, res);
}

#[test]
fn div_exact_values() {
    let c1 = Complex::new(13_i64, 123);
    let c2 = Complex::new(576, 362);
    let denom = 576 * 576 + 362 * 362;
    assert_eq!(
        c1 / c2,
        Complex::new((13 * 576 + 123 * 362) / denom, (123 * 576 - 13 * 362) / denom)
    );
    let c3 = Complex::new(10_i64, 5);
    let c4 = Complex::new(1_i64, 2);
    // (10 + 5i) / (1 + 2i) = 4 - 3i exactly
    assert_eq!(c3 / c4, Complex::new(4, -3));
}

#[test]
fn rem_by_norm() {
    let c1 = Complex::new(13_i64, 123);
    let c2 = Complex::new(5, 2);
    // a * conj(b) = (13*5 + 123*2) + (123*5 - 13*2)i = 311 + 589i; |b|^2 = 29
    assert_eq!(c1 % c2, Complex::new(311 % 29, 589 % 29));
}

#[test]
fn default_is_zero() {
    let z: Complex<i32> = Complex::default();
    assert_eq!(z, Complex::new(0, 0));
}

#[test]
fn from_scalar() {
    assert_eq!(Complex::from(7_i64), Complex::new(7, 0));
}

#[derive(Clone, Copy, Debug, PartialEq)]
struct Double(f64);

impl Add for Double {
    type Output = Double;
    fn add(self, o: Double) -> Double {
        Double(self.0 + o.0)
    }
}

impl Mul for Double {
    type Output = Double;
    fn mul(self, o: Double) -> Double {
        Double(self.0 * o.0)
    }
}

impl Sqrt for Double {
    fn sqrt(&self) -> Double {
        Double(f64::from_bits(sqrt_f64_bits(self.0.to_bits())))
    }
}

#[test]
fn abs_of_three_four() {
    assert_eq!(Complex::new(Double(3.0), Double(4.0)).abs(), Double(5.0));
}

#[test]
fn abs_inexact() {
    let r = Complex::new(Double(1.0), Double(1.0)).abs();
    assert_eq!(r, Double(std::f64::consts::SQRT_2));
}
