use vstd::prelude::*;
use core::ops::{Add, Div, Mul, Rem, Sub};
use vstd::std_specs::ops::{
    AddSpec, AddSpecImpl, DivSpec, DivSpecImpl, MulSpec, MulSpecImpl, RemSpec, RemSpecImpl, SubSpec,
    SubSpecImpl,
};
use vstd::std_specs::convert::FromSpecImpl;

verus! {

/// A complex number `re + im * i` over the element type `T`.
#[derive(Clone, Copy, Hash, PartialEq, Eq, Debug)]
pub struct Complex<T> {
    pub re: T,
    pub im: T,
}

/// An element type that can take its own square root.
pub trait Sqrt: Sized {
    fn sqrt(&self) -> Self;
}

impl<T> Complex<T> {
    /// The complex number `re + im * i`.
    pub fn new(re: T, im: T) -> (r: Self)
        ensures
            r.re == re,
            r.im == im,
    {
        Complex { re, im }
    }
}

impl<T: Copy + Add<Output = T>> AddSpecImpl for Complex<T> {
    open spec fn obeys_add_spec() -> bool {
        T::obeys_add_spec()
    }

    open spec fn add_req(self, rhs: Self) -> bool {
        self.re.add_req(rhs.re) && self.im.add_req(rhs.im)
    }

    open spec fn add_spec(self, rhs: Self) -> Self {
        Complex { re: self.re.add_spec(rhs.re), im: self.im.add_spec(rhs.im) }
    }
}

impl<T: Copy + Add<Output = T>> Add for Complex<T> {
    type Output = Self;

    /// Part by part. As for every operator here, the contract is the
    /// operator trait's: `r == self.add_spec(other)` wherever the element
    /// type's operations compute their spec values.
    fn add(self, other: Self) -> (r: Self) {
        Complex { re: self.re + other.re, im: self.im + other.im }
    }
}

impl<T: Copy + Sub<Output = T>> SubSpecImpl for Complex<T> {
    open spec fn obeys_sub_spec() -> bool {
        T::obeys_sub_spec()
    }

    open spec fn sub_req(self, rhs: Self) -> bool {
        self.re.sub_req(rhs.re) && self.im.sub_req(rhs.im)
    }

    open spec fn sub_spec(self, rhs: Self) -> Self {
        Complex { re: self.re.sub_spec(rhs.re), im: self.im.sub_spec(rhs.im) }
    }
}

impl<T: Copy + Sub<Output = T>> Sub for Complex<T> {
    type Output = Self;

    /// Part by part.
    fn sub(self, other: Self) -> (r: Self) {
        Complex { re: self.re - other.re, im: self.im - other.im }
    }
}

impl<T: Default> Default for Complex<T> {
    /// Zero: both parts are the element type's default.
    fn default() -> (r: Self)
        ensures
            call_ensures(T::default, (), r.re),
            call_ensures(T::default, (), r.im),
    {
        Complex { re: T::default(), im: T::default() }
    }
}

// The element type's default has no spec value, so `from` states its result
// in its own `ensures` instead of through `from_spec`.
impl<T: Default> FromSpecImpl<T> for Complex<T> {
    open spec fn obeys_from_spec() -> bool {
        false
    }

    open spec fn from_spec(v: T) -> Self {
        Complex { re: v, im: arbitrary() }
    }
}

impl<T: Default> From<T> for Complex<T> {
    /// The real number `num`: the imaginary part is the element type's default.
    fn from(num: T) -> (r: Self)
        ensures
            r.re == num,
            call_ensures(T::default, (), r.im),
    {
        Complex { re: num, im: T::default() }
    }
}

/// The element operations are those of integers: each one computes its
/// spec value wherever its precondition holds.
pub open spec fn obeys_ring<T: Copy + Add<Output = T> + Sub<Output = T> + Mul<Output = T>>() -> bool {
    T::obeys_add_spec() && T::obeys_sub_spec() && T::obeys_mul_spec()
}

/// `a * b + c * d`, where each operation is defined.
pub open spec fn dot_req<T: Copy + Add<Output = T> + Mul<Output = T>>(a: T, b: T, c: T, d: T) -> bool {
    a.mul_req(b) && c.mul_req(d) && a.mul_spec(b).add_req(c.mul_spec(d))
}

pub open spec fn dot<T: Copy + Add<Output = T> + Mul<Output = T>>(a: T, b: T, c: T, d: T) -> T {
    a.mul_spec(b).add_spec(c.mul_spec(d))
}

/// `a * b - c * d`, where each operation is defined.
pub open spec fn cross_req<T: Copy + Sub<Output = T> + Mul<Output = T>>(a: T, b: T, c: T, d: T) -> bool {
    a.mul_req(b) && c.mul_req(d) && a.mul_spec(b).sub_req(c.mul_spec(d))
}

pub open spec fn cross<T: Copy + Sub<Output = T> + Mul<Output = T>>(a: T, b: T, c: T, d: T) -> T {
    a.mul_spec(b).sub_spec(c.mul_spec(d))
}

impl<T: Copy + Add<Output = T> + Sub<Output = T> + Mul<Output = T>> MulSpecImpl for Complex<T> {
    open spec fn obeys_mul_spec() -> bool {
        obeys_ring::<T>()
    }

    open spec fn mul_req(self, rhs: Self) -> bool {
        obeys_ring::<T>() && cross_req(self.re, rhs.re, self.im, rhs.im) && dot_req(
            self.re,
            rhs.im,
            self.im,
            rhs.re,
        )
    }

    open spec fn mul_spec(self, rhs: Self) -> Self {
        Complex {
            re: cross(self.re, rhs.re, self.im, rhs.im),
            im: dot(self.re, rhs.im, self.im, rhs.re),
        }
    }
}

impl<T: Copy + Add<Output = T> + Sub<Output = T> + Mul<Output = T>> Mul for Complex<T> {
    type Output = Self;

    /// `(a + bi)(c + di) = (ac - bd) + (ad + bc)i`.
    fn mul(self, other: Self) -> (r: Self) {
        Complex {
            re: self.re * other.re - self.im * other.im,
            im: self.re * other.im + self.im * other.re,
        }
    }
}

/// The squared magnitude `re^2 + im^2` of a divisor, where it is defined.
pub open spec fn norm_sq_req<T: Copy + Add<Output = T> + Mul<Output = T>>(c: Complex<T>) -> bool {
    dot_req(c.re, c.re, c.im, c.im)
}

pub open spec fn norm_sq<T: Copy + Add<Output = T> + Mul<Output = T>>(c: Complex<T>) -> T {
    dot(c.re, c.re, c.im, c.im)
}

/// What division and remainder both need: `a * conj(b)` and `|b|^2` defined.
pub open spec fn quot_parts_req<T: Copy + Add<Output = T> + Sub<Output = T> + Mul<Output = T>>(
    a: Complex<T>,
    b: Complex<T>,
) -> bool {
    obeys_ring::<T>() && norm_sq_req(b) && dot_req(a.re, b.re, a.im, b.im) && cross_req(
        a.im,
        b.re,
        a.re,
        b.im,
    )
}

impl<T: Copy + Add<Output = T> + Sub<Output = T> + Mul<Output = T> + Div<Output = T>> DivSpecImpl for Complex<T> {
    open spec fn obeys_div_spec() -> bool {
        obeys_ring::<T>() && T::obeys_div_spec()
    }

    open spec fn div_req(self, rhs: Self) -> bool {
        quot_parts_req(self, rhs) && T::obeys_div_spec() && dot(
            self.re,
            rhs.re,
            self.im,
            rhs.im,
        ).div_req(norm_sq(rhs)) && cross(self.im, rhs.re, self.re, rhs.im).div_req(norm_sq(rhs))
    }

    open spec fn div_spec(self, rhs: Self) -> Self {
        Complex {
            re: dot(self.re, rhs.re, self.im, rhs.im).div_spec(norm_sq(rhs)),
            im: cross(self.im, rhs.re, self.re, rhs.im).div_spec(norm_sq(rhs)),
        }
    }
}

impl<T: Copy + Add<Output = T> + Sub<Output = T> + Mul<Output = T> + Div<Output = T>> Div for Complex<T> {
    type Output = Self;

    /// `a / b = (a * conj(b)) / |b|^2`, each part divided by the element
    /// type's own division.
    fn div(self, other: Self) -> (r: Self) {
        let denom = other.re * other.re + other.im * other.im;
        Complex {
            re: (self.re * other.re + self.im * other.im) / denom,
            im: (self.im * other.re - self.re * other.im) / denom,
        }
    }
}

impl<T: Copy + Add<Output = T> + Sub<Output = T> + Mul<Output = T> + Rem<Output = T>> RemSpecImpl for Complex<T> {
    open spec fn obeys_rem_spec() -> bool {
        obeys_ring::<T>() && T::obeys_rem_spec()
    }

    open spec fn rem_req(self, rhs: Self) -> bool {
        quot_parts_req(self, rhs) && T::obeys_rem_spec() && dot(
            self.re,
            rhs.re,
            self.im,
            rhs.im,
        ).rem_req(norm_sq(rhs)) && cross(self.im, rhs.re, self.re, rhs.im).rem_req(norm_sq(rhs))
    }

    open spec fn rem_spec(self, rhs: Self) -> Self {
        Complex {
            re: dot(self.re, rhs.re, self.im, rhs.im).rem_spec(norm_sq(rhs)),
            im: cross(self.im, rhs.re, self.re, rhs.im).rem_spec(norm_sq(rhs)),
        }
    }
}

impl<T: Copy + Add<Output = T> + Sub<Output = T> + Mul<Output = T> + Rem<Output = T>> Rem for Complex<T> {
    type Output = Self;

    /// By analogy with division: each part of `a * conj(b)` taken modulo
    /// `|b|^2`.
    fn rem(self, other: Self) -> (r: Self) {
        let denom = other.re * other.re + other.im * other.im;
        Complex {
            re: (self.re * other.re + self.im * other.im) % denom,
            im: (self.im * other.re - self.re * other.im) % denom,
        }
    }
}

impl<T: Copy + Add<Output = T> + Mul<Output = T> + Sqrt> Complex<T> {
    /// The magnitude `sqrt(re^2 + im^2)`: what the element type's own square
    /// root returns on `re * re + im * im`.
    pub fn abs(&self) -> (r: T)
        requires
            T::obeys_add_spec(),
            T::obeys_mul_spec(),
            norm_sq_req(*self),
        ensures
            call_ensures(T::sqrt, (&norm_sq(*self),), r),
    {
        (self.re * self.re + self.im * self.im).sqrt()
    }
}

} // verus!
