//! What is summed, and which entries take part.
use crate::scalar::{Additive, ComplexField};
use vstd::prelude::*;

verus! {

/// How entries that are not a number are treated.
#[derive(Copy, Clone, Debug, PartialEq, Eq, Structural)]
pub enum NanHandling {
    /// Every entry takes part in the arithmetic as it is.
    Propagate,
    /// Entries that are not a number are skipped, and are not counted.
    Ignore,
}

/// The contribution of one entry to a sum.
pub trait Statistic<E: ComplexField> {
    /// The type in which the contributions are summed.
    type Acc: Additive;

    /// What entry `x` contributes.
    spec fn term_spec(&self, x: E) -> Self::Acc;

    fn term(&self, x: E) -> (r: Self::Acc)
        ensures
            r == self.term_spec(x),
    ;
}

/// For a mean: each entry contributes itself.
pub struct Plain;

/// For a variance about `mean`: each entry contributes the squared magnitude
/// of its distance from `mean`.
pub struct Deviation<E> {
    pub mean: E,
}

impl<E: ComplexField> Statistic<E> for Plain {
    type Acc = E;

    open spec fn term_spec(&self, x: E) -> E {
        x
    }

    fn term(&self, x: E) -> (r: E) {
        x
    }
}

impl<E: ComplexField> Statistic<E> for Deviation<E> {
    type Acc = E::Real;

    open spec fn term_spec(&self, x: E) -> E::Real {
        x.minus_spec(self.mean).abs2_spec()
    }

    fn term(&self, x: E) -> (r: E::Real) {
        x.minus(self.mean).abs2()
    }
}

/// Whether entry `x` takes part in a sum under policy `nan`.
pub open spec fn counted<E: ComplexField>(x: E, nan: NanHandling) -> bool {
    nan == NanHandling::Propagate || !x.is_nan_spec()
}

/// How many of the first `n` entries of `row` take part under policy `nan`.
pub open spec fn count_valid<E: ComplexField>(row: Seq<E>, nan: NanHandling, n: nat) -> nat
    decreases n,
{
    if n == 0 {
        0
    } else {
        count_valid(row, nan, (n - 1) as nat) + if counted(row[n - 1], nan) {
            1nat
        } else {
            0nat
        }
    }
}

/// The sum, taken from left to right and starting from zero, of the
/// contributions of those among the first `n` entries of `row` that take
/// part under policy `nan`.
pub open spec fn running_sum<E: ComplexField, S: Statistic<E>>(
    stat: S,
    row: Seq<E>,
    nan: NanHandling,
    n: nat,
) -> S::Acc
    decreases n,
{
    if n == 0 {
        S::Acc::zero_spec()
    } else {
        let before = running_sum(stat, row, nan, (n - 1) as nat);
        if counted(row[n - 1], nan) {
            before.plus_spec(stat.term_spec(row[n - 1]))
        } else {
            before
        }
    }
}

/// Counting may as well start after the first entry.
proof fn lemma_count_from_second<E: ComplexField>(row: Seq<E>, nan: NanHandling, n: nat)
    requires
        1 <= n <= row.len(),
    ensures
        count_valid(row, nan, n) == count_valid(
            row.subrange(1, row.len() as int),
            nan,
            (n - 1) as nat,
        ) + if counted(row[0], nan) {
            1nat
        } else {
            0nat
        },
    decreases n,
{
    let rest = row.subrange(1, row.len() as int);
    if n == 1 {
        assert(count_valid(row, nan, 0) == 0);
        assert(count_valid(rest, nan, 0) == 0);
    } else {
        lemma_count_from_second(row, nan, (n - 1) as nat);
        assert(rest[n - 2] == row[n - 1]);
    }
}

/// As many entries take part in a row read backwards as in the row itself.
pub proof fn lemma_count_reversed<E: ComplexField>(
    row: Seq<E>,
    back: Seq<E>,
    nan: NanHandling,
    n: nat,
)
    requires
        n <= row.len(),
        back.len() == n,
        forall|j: int| 0 <= j < n ==> back[j] == row[n - 1 - j],
    ensures
        count_valid(back, nan, n) == count_valid(row, nan, n),
    decreases n,
{
    if n > 0 {
        let rest = back.subrange(1, n as int);
        lemma_count_from_second(back, nan, n);
        assert forall|j: int| 0 <= j < n - 1 implies rest[j] == row[n - 2 - j] by {
            assert(rest[j] == back[j + 1]);
        }
        lemma_count_reversed(row, rest, nan, (n - 1) as nat);
    }
}

/// No more entries take part than there are.
pub proof fn lemma_count_bounded<E: ComplexField>(row: Seq<E>, nan: NanHandling, n: nat)
    ensures
        count_valid(row, nan, n) <= n,
        nan == NanHandling::Propagate ==> count_valid(row, nan, n) == n,
    decreases n,
{
    if n > 0 {
        lemma_count_bounded(row, nan, (n - 1) as nat);
    }
}

} // verus!
