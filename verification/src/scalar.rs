//! Element capabilities.
//!
//! The reduction engine never looks inside a matrix entry. Everything it needs
//! from one (a zero, a not-a-number marker, addition, subtraction, squared
//! magnitude, scaling by a real factor) is asked of the entry's type through
//! the traits below. Each executable method is paired with a specification
//! function that names its result, so that the engine's contracts can say
//! which value ends up in every output position.
//!
//! The traits are meant to be implemented by the users of the library, once
//! per element category: a real scalar, or a packed complex layout. (Complex
//! numbers over a real scalar are entries as soon as the scalar is one.) The
//! engine's proofs hold for an implementation exactly as far as its methods
//! return what their specification functions name.
use vstd::prelude::*;

verus! {

/// A value that can be summed: it has a zero and an addition.
pub trait Additive: Copy {
    /// The additive zero.
    spec fn zero_spec() -> Self;

    /// The sum of two values.
    spec fn plus_spec(self, rhs: Self) -> Self;

    fn zero() -> (r: Self)
        ensures
            r == Self::zero_spec(),
    ;

    fn plus(self, rhs: Self) -> (r: Self)
        ensures
            r == self.plus_spec(rhs),
    ;
}

/// A real scalar: the type of divisors, scale factors and variances.
pub trait RealField: Additive {
    /// Whether the value is not a number.
    spec fn is_nan_spec(self) -> bool;

    /// The difference of two values.
    spec fn minus_spec(self, rhs: Self) -> Self;

    /// The product of two values.
    spec fn times_spec(self, rhs: Self) -> Self;

    /// The reciprocal of a value.
    spec fn inverse_spec(self) -> Self;

    /// The scalar that stands for a non-negative integer.
    spec fn from_u64_spec(n: u64) -> Self;

    /// Some value that is not a number. Which one is left to the
    /// implementation.
    fn nan() -> (r: Self)
        ensures
            r.is_nan_spec(),
    ;

    fn is_nan(self) -> (r: bool)
        ensures
            r == self.is_nan_spec(),
    ;

    fn minus(self, rhs: Self) -> (r: Self)
        ensures
            r == self.minus_spec(rhs),
    ;

    fn times(self, rhs: Self) -> (r: Self)
        ensures
            r == self.times_spec(rhs),
    ;

    fn inverse(self) -> (r: Self)
        ensures
            r == self.inverse_spec(),
    ;

    fn from_u64(n: u64) -> (r: Self)
        ensures
            r == Self::from_u64_spec(n),
    ;
}

/// A matrix entry: a real scalar or a complex number over `Real`.
pub trait ComplexField: Additive {
    /// The type of this entry's components, and of its squared magnitude.
    type Real: RealField;

    /// Whether the entry is not a number. For a complex entry this holds as
    /// soon as one of its two components is not a number.
    spec fn is_nan_spec(self) -> bool;

    /// The difference of two entries.
    spec fn minus_spec(self, rhs: Self) -> Self;

    /// The squared magnitude: for a real entry its square, for a complex
    /// entry the sum of the squares of its components.
    spec fn abs2_spec(self) -> Self::Real;

    /// The entry with each component multiplied by `factor`.
    spec fn scale_real_spec(self, factor: Self::Real) -> Self;

    /// Some entry that is not a number. Which one is left to the
    /// implementation.
    fn nan() -> (r: Self)
        ensures
            r.is_nan_spec(),
    ;

    fn is_nan(self) -> (r: bool)
        ensures
            r == self.is_nan_spec(),
    ;

    fn minus(self, rhs: Self) -> (r: Self)
        ensures
            r == self.minus_spec(rhs),
    ;

    fn abs2(self) -> (r: Self::Real)
        ensures
            r == self.abs2_spec(),
    ;

    fn scale_real(self, factor: Self::Real) -> (r: Self)
        ensures
            r == self.scale_real_spec(factor),
    ;
}

} // verus!
