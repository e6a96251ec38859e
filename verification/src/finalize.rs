//! From raw sums and counts to the final statistic.
use crate::scalar::{ComplexField, RealField};
use vstd::prelude::*;

verus! {

/// The part of `n` held in its low 32 bits.
pub open spec fn low_part(n: usize) -> u64 {
    (n as u64) & 0xffff_ffffu64
}

/// What is left of `n` once its low 32 bits are taken away.
pub open spec fn high_part(n: usize) -> u64 {
    ((n as u64) - low_part(n)) as u64
}

/// The scalar that stands for the count `n`.
///
/// The count is split in two parts of at most 32 significant bits each, so
/// that each part converts without rounding even where the conversion passes
/// through a double-precision intermediate; the two are then added in `E`.
pub open spec fn usize_scalar<E: RealField>(n: usize) -> E {
    E::from_u64_spec(low_part(n)).plus_spec(E::from_u64_spec(high_part(n)))
}

/// The two parts make up the whole, and the low one fits in 32 bits.
pub proof fn lemma_parts(n: usize)
    ensures
        low_part(n) + high_part(n) == n,
        low_part(n) <= 0xffff_ffff,
        low_part(n) as int == (n as int) % 0x1_0000_0000,
        n <= 0xffff_ffff ==> low_part(n) == n && high_part(n) == 0,
{
    let m: u64 = n as u64;
    assert(m & 0xffff_ffffu64 <= m) by (bit_vector);
    assert(m & 0xffff_ffffu64 <= 0xffff_ffffu64) by (bit_vector);
    assert(m & 0xffff_ffffu64 == m % 0x1_0000_0000u64) by (bit_vector);
    assert(m <= 0xffff_ffffu64 ==> m & 0xffff_ffffu64 == m) by (bit_vector);
}

/// Converts a count to a scalar.
pub fn from_usize<E: RealField>(n: usize) -> (r: E)
    ensures
        r == usize_scalar::<E>(n),
{
    let wide: u64 = n as u64;
    let low: u64 = wide & 0xffff_ffffu64;
    proof {
        lemma_parts(n);
    }
    let high: u64 = wide - low;
    E::from_u64(low).plus(E::from_u64(high))
}

/// Whether `r` is the mean that belongs to a sum over `count` entries.
///
/// With no entry at all the mean is undefined, and `r` is not a number;
/// otherwise it is the sum scaled by the reciprocal of the count.
pub open spec fn is_mean<E: ComplexField>(r: E, sum: E, count: usize) -> bool {
    if count == 0 {
        r.is_nan_spec()
    } else {
        r == sum.scale_real_spec(usize_scalar::<E::Real>(count).inverse_spec())
    }
}

/// Whether `r` is the sample variance that belongs to a sum of squared
/// deviations over `count` entries.
///
/// With no entry the variance is undefined, and `r` is not a number. With a
/// single entry it is zero by convention, whatever the sum holds. Otherwise it
/// is the sum times the reciprocal of `count - 1`.
pub open spec fn is_variance<R: RealField>(r: R, sum: R, count: usize) -> bool {
    if count == 0 {
        r.is_nan_spec()
    } else if count == 1 {
        r == R::zero_spec()
    } else {
        r == sum.times_spec(usize_scalar::<R>((count - 1) as usize).inverse_spec())
    }
}

/// Turns a sum over `count` entries into their mean.
pub fn finish_mean<E: ComplexField>(sum: E, count: usize) -> (r: E)
    ensures
        is_mean(r, sum, count),
{
    if count == 0 {
        E::nan()
    } else {
        sum.scale_real(from_usize::<E::Real>(count).inverse())
    }
}

/// Turns a sum of squared deviations over `count` entries into their sample
/// variance.
pub fn finish_variance<R: RealField>(sum: R, count: usize) -> (r: R)
    ensures
        is_variance(r, sum, count),
{
    if count == 0 {
        R::nan()
    } else if count == 1 {
        R::zero()
    } else {
        sum.times(from_usize::<R>(count - 1).inverse())
    }
}

} // verus!
