//! Complex numbers over a real scalar as matrix entries.
use crate::scalar::{Additive, ComplexField, RealField};
use num_complex::Complex;
use vstd::prelude::*;

verus! {

/// The complex number type: a real part `re` and an imaginary part `im`, both
/// public and of the same type.
#[verifier::external_type_specification]
#[verifier::reject_recursive_types(T)]
pub struct ExComplex<T>(Complex<T>);

/// Complex numbers are added part by part.
impl<R: RealField> Additive for Complex<R> {
    open spec fn zero_spec() -> Self {
        Complex { re: R::zero_spec(), im: R::zero_spec() }
    }

    open spec fn plus_spec(self, rhs: Self) -> Self {
        Complex { re: self.re.plus_spec(rhs.re), im: self.im.plus_spec(rhs.im) }
    }

    fn zero() -> (r: Self) {
        Complex { re: R::zero(), im: R::zero() }
    }

    fn plus(self, rhs: Self) -> (r: Self) {
        Complex { re: self.re.plus(rhs.re), im: self.im.plus(rhs.im) }
    }
}

/// A complex number over a real scalar is a matrix entry. It is not a number
/// as soon as one of its parts is not; its squared magnitude is the square of
/// its real part plus the square of its imaginary part; it is subtracted and
/// scaled part by part.
impl<R: RealField> ComplexField for Complex<R> {
    type Real = R;

    open spec fn is_nan_spec(self) -> bool {
        self.re.is_nan_spec() || self.im.is_nan_spec()
    }

    open spec fn minus_spec(self, rhs: Self) -> Self {
        Complex { re: self.re.minus_spec(rhs.re), im: self.im.minus_spec(rhs.im) }
    }

    open spec fn abs2_spec(self) -> R {
        self.re.times_spec(self.re).plus_spec(self.im.times_spec(self.im))
    }

    open spec fn scale_real_spec(self, factor: R) -> Self {
        Complex { re: self.re.times_spec(factor), im: self.im.times_spec(factor) }
    }

    fn nan() -> (r: Self) {
        Complex { re: R::nan(), im: R::nan() }
    }

    fn is_nan(self) -> (r: bool) {
        self.re.is_nan() || self.im.is_nan()
    }

    fn minus(self, rhs: Self) -> (r: Self) {
        Complex { re: self.re.minus(rhs.re), im: self.im.minus(rhs.im) }
    }

    fn abs2(self) -> (r: R) {
        self.re.times(self.re).plus(self.im.times(self.im))
    }

    fn scale_real(self, factor: R) -> (r: Self) {
        Complex { re: self.re.times(factor), im: self.im.times(factor) }
    }
}

} // verus!
