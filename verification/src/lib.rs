//! Per-row and per-column mean and sample variance of dense, possibly
//! strided, matrices, with a selectable treatment of entries that are not a
//! number.
//!
//! The entry points are [`col_mean`], [`row_mean`], [`col_varm`] and
//! [`row_varm`]. Each states which value it leaves in every position of its
//! output: the sum of a row, taken in a stated order, divided by the number
//! of entries that took part. The variance is computed about means that the
//! caller hands in, from a second pass over the same entries.
//!
//! The modules, from the leaves up:
//!
//! - `scalar`: what the engine asks of a matrix entry and of a real scalar;
//!   `complex`: complex numbers over a real scalar as entries.
//! - `matrix`: borrowed, strided views, their transposition and reversal.
//! - `sums`: the policy, what an entry contributes, and the sum and the count
//!   of a row from left to right.
//! - `lanes`, `schedule`, `kernel`: the reduction of a contiguous row lane by
//!   lane with four partial accumulators, and the reduction of a strided row
//!   entry by entry.
//! - `finalize`: from a sum and a count to a mean or a variance.
//! - `meanvar`: the entry points.
//! - `laws`, `exact`, `alike`: what holds of the results whatever the matrix.
pub mod alike;
pub mod complex;
pub mod exact;
pub mod finalize;
pub mod kernel;
pub mod lanes;
pub mod laws;
pub mod matrix;
pub mod meanvar;
pub mod scalar;
pub mod schedule;
pub mod sums;

pub use finalize::from_usize;
pub use matrix::MatRef;
pub use meanvar::{
    col_mean, col_mean_ignore, col_mean_propagate, col_varm, col_varm_ignore, col_varm_propagate,
    row_mean, row_mean_ignore, row_mean_propagate, row_varm, row_varm_ignore, row_varm_propagate,
};
pub use scalar::{Additive, ComplexField, RealField};
pub use schedule::Shape;
pub use sums::NanHandling;
