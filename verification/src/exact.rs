//! What the order of the additions cannot change.
//!
//! The two reductions of a row add the same contributions in different
//! orders. Where addition is exact, that is associative and commutative with
//! zero as its neutral value, the order does not show: every layout of the
//! same entries then gives the same sum, the sum of the row from left to
//! right. With rounding arithmetic the results differ by rounding only, since
//! no contribution is left out or taken twice.
use crate::lanes::fold_lanes;
use crate::matrix::MatRef;
use crate::meanvar::{is_col_mean, is_col_varm, row_count, row_shape, row_sum};
use crate::scalar::{Additive, ComplexField};
use crate::schedule::{
    accumulator_at, cell_sum, goes_to, head_len, lane_of, lane_sum, settled_lanes, Shape, LANES,
};
use crate::sums::{counted, running_sum, Deviation, NanHandling, Plain, Statistic};
use vstd::arithmetic::div_mod::{lemma_fundamental_div_mod_converse, lemma_mod_bound};
use vstd::prelude::*;

verus! {

/// Whether addition in `T` is exact: commutative and associative, with zero
/// as its neutral value.
#[verifier::opaque]
pub open spec fn exact<T: Additive>() -> bool {
    &&& forall|a: T, b: T| #[trigger] a.plus_spec(b) == b.plus_spec(a)
    &&& forall|a: T, b: T, c: T| #[trigger]
        a.plus_spec(b).plus_spec(c) == a.plus_spec(b.plus_spec(c))
    &&& forall|a: T| #[trigger] a.plus_spec(T::zero_spec()) == a
}

/// Exact addition is commutative.
pub proof fn lemma_commutes<T: Additive>(a: T, b: T)
    requires
        exact::<T>(),
    ensures
        a.plus_spec(b) == b.plus_spec(a),
{
    reveal(exact);
}

/// Exact addition is associative.
pub proof fn lemma_associates<T: Additive>(a: T, b: T, c: T)
    requires
        exact::<T>(),
    ensures
        a.plus_spec(b).plus_spec(c) == a.plus_spec(b.plus_spec(c)),
{
    reveal(exact);
}

/// Zero is neutral in exact addition.
pub proof fn lemma_zero_is_neutral<T: Additive>(a: T)
    requires
        exact::<T>(),
    ensures
        a.plus_spec(T::zero_spec()) == a,
        T::zero_spec().plus_spec(a) == a,
{
    reveal(exact);
}

/// With exact addition, a value added to the left operand of a sum is added
/// to the sum.
proof fn lemma_bump_left<T: Additive>(a: T, b: T, x: T)
    requires
        exact::<T>(),
    ensures
        a.plus_spec(x).plus_spec(b) == a.plus_spec(b).plus_spec(x),
{
    lemma_associates(a, x, b);
    lemma_commutes(x, b);
    lemma_associates(a, b, x);
}

/// With exact addition, a value added to the right operand of a sum is added
/// to the sum.
proof fn lemma_bump_right<T: Additive>(a: T, b: T, x: T)
    requires
        exact::<T>(),
    ensures
        a.plus_spec(b.plus_spec(x)) == a.plus_spec(b).plus_spec(x),
{
    lemma_associates(a, b, x);
}

/// With exact addition, a value added to one lane of a vector is added to the
/// sum of its lanes.
proof fn lemma_fold_bump<T: Additive>(u: Seq<T>, v: Seq<T>, n: nat, lane: int, x: T)
    requires
        exact::<T>(),
        1 <= n,
        0 <= lane < n,
        v[lane] == u[lane].plus_spec(x),
        forall|k: int| 0 <= k < n && k != lane ==> v[k] == u[k],
    ensures
        fold_lanes(v, n) == fold_lanes(u, n).plus_spec(x),
    decreases n,
{
    if n > 1 {
        let before_u = fold_lanes(u, (n - 1) as nat);
        let before_v = fold_lanes(v, (n - 1) as nat);
        if lane == n - 1 {
            crate::lanes::lemma_fold_same(u, v, (n - 1) as nat);
            lemma_bump_right(before_u, u[n - 1], x);
        } else {
            lemma_fold_bump(u, v, (n - 1) as nat, lane, x);
            lemma_bump_left(before_u, u[n - 1], x);
        }
    }
}

/// With exact addition, the lanes of a vector of zeros add up to zero.
proof fn lemma_fold_zero<T: Additive>(u: Seq<T>, n: nat)
    requires
        exact::<T>(),
        1 <= n,
        forall|k: int| 0 <= k < n ==> u[k] == T::zero_spec(),
    ensures
        fold_lanes(u, n) == T::zero_spec(),
    decreases n,
{
    if n > 1 {
        lemma_fold_zero(u, (n - 1) as nat);
        lemma_zero_is_neutral(T::zero_spec());
    }
}

/// What lane `k` would hold if the four accumulators were combined once the
/// first `n` entries of `row` have been taken in.
pub open spec fn lane_total_at<E: ComplexField, S: Statistic<E>>(
    stat: S,
    row: Seq<E>,
    nan: NanHandling,
    shape: Shape,
    k: int,
    n: nat,
) -> S::Acc {
    cell_sum(stat, row, nan, shape, 0, k, n).plus_spec(
        cell_sum(stat, row, nan, shape, 1, k, n),
    ).plus_spec(
        cell_sum(stat, row, nan, shape, 2, k, n).plus_spec(
            cell_sum(stat, row, nan, shape, 3, k, n),
        ),
    )
}

/// The combined lanes, moved back by the shift of the cut, as they would be
/// once the first `n` entries of `row` have been taken in.
pub open spec fn settled_at<E: ComplexField, S: Statistic<E>>(
    stat: S,
    row: Seq<E>,
    nan: NanHandling,
    shape: Shape,
    n: nat,
) -> Seq<S::Acc> {
    Seq::new(
        shape.width() as nat,
        |r: int| lane_total_at(stat, row, nan, shape, (r + shape.shift()) % shape.width(), n),
    )
}

/// Every entry goes to one of the four accumulators.
proof fn lemma_accumulator_range(shape: Shape, len: int, j: int)
    ensures
        0 <= accumulator_at(shape, len, j) < 4,
{
    lemma_mod_bound((j - head_len(shape, len)) / shape.width(), 4);
}

/// With exact addition, a contribution that goes to one accumulator of a lane
/// is added to what the lane holds once the four are combined.
proof fn lemma_total_bump<T: Additive>(
    c0: T,
    c1: T,
    c2: T,
    c3: T,
    d0: T,
    d1: T,
    d2: T,
    d3: T,
    a: int,
    x: T,
)
    requires
        exact::<T>(),
        0 <= a < 4,
        d0 == if a == 0 {
            c0.plus_spec(x)
        } else {
            c0
        },
        d1 == if a == 1 {
            c1.plus_spec(x)
        } else {
            c1
        },
        d2 == if a == 2 {
            c2.plus_spec(x)
        } else {
            c2
        },
        d3 == if a == 3 {
            c3.plus_spec(x)
        } else {
            c3
        },
    ensures
        d0.plus_spec(d1).plus_spec(d2.plus_spec(d3)) == c0.plus_spec(c1).plus_spec(
            c2.plus_spec(c3),
        ).plus_spec(x),
{
    let left = c0.plus_spec(c1);
    let right = c2.plus_spec(c3);
    if a == 0 {
        lemma_bump_left(c0, c1, x);
        lemma_bump_left(left, right, x);
    } else if a == 1 {
        lemma_bump_right(c0, c1, x);
        lemma_bump_left(left, right, x);
    } else if a == 2 {
        lemma_bump_left(c2, c3, x);
        lemma_bump_right(left, right, x);
    } else {
        lemma_bump_right(c2, c3, x);
        lemma_bump_right(left, right, x);
    }
}

/// With exact addition, the lanes add up to the sum from left to right after
/// any number of entries.
proof fn lemma_lanes_sum_up<E: ComplexField, S: Statistic<E>>(
    stat: S,
    row: Seq<E>,
    nan: NanHandling,
    shape: Shape,
    n: nat,
)
    requires
        exact::<S::Acc>(),
        shape.wf(),
        n <= row.len(),
    ensures
        fold_lanes(settled_at(stat, row, nan, shape, n), shape.width() as nat) == running_sum(
            stat,
            row,
            nan,
            n,
        ),
    decreases n,
{
    let w = shape.width();
    let p = shape.shift();
    let now = settled_at(stat, row, nan, shape, n);
    let zero = S::Acc::zero_spec();
    if n == 0 {
        lemma_zero_is_neutral(zero);
        assert forall|r: int| 0 <= r < w implies now[r] == zero by {
            assert(zero.plus_spec(zero) == zero);
        }
        lemma_fold_zero(now, w as nat);
    } else {
        lemma_lanes_sum_up(stat, row, nan, shape, (n - 1) as nat);
        let before = settled_at(stat, row, nan, shape, (n - 1) as nat);
        let j = n - 1;
        if counted(row[j], nan) {
            let x = stat.term_spec(row[j]);
            let a = accumulator_at(shape, row.len() as int, j);
            let k = lane_of(shape, j);
            lemma_accumulator_range(shape, row.len() as int, j);
            lemma_mod_bound(j + p, w);
            // The place to which lane `k` moves when the shift is undone.
            let r = if k >= p {
                k - p
            } else {
                k - p + w
            };
            assert((r + p) % w == k) by {
                if r + p < w {
                    lemma_fundamental_div_mod_converse(r + p, w, 0, r + p);
                } else {
                    lemma_fundamental_div_mod_converse(r + p, w, 1, r + p - w);
                }
            }
            assert forall|t: int| 0 <= t < w && t != r implies now[t] == before[t] by {
                let lane = (t + p) % w;
                if t + p < w {
                    lemma_fundamental_div_mod_converse(t + p, w, 0, t + p);
                } else {
                    lemma_fundamental_div_mod_converse(t + p, w, 1, t + p - w);
                }
                assert(lane != k);
                assert(!goes_to(shape, row.len() as int, j, 0, lane));
                assert(!goes_to(shape, row.len() as int, j, 1, lane));
                assert(!goes_to(shape, row.len() as int, j, 2, lane));
                assert(!goes_to(shape, row.len() as int, j, 3, lane));
            }
            assert(now[r] == before[r].plus_spec(x)) by {
                let m = (n - 1) as nat;
                assert((r + p) % w == k);
                lemma_total_bump(
                    cell_sum(stat, row, nan, shape, 0, k, m),
                    cell_sum(stat, row, nan, shape, 1, k, m),
                    cell_sum(stat, row, nan, shape, 2, k, m),
                    cell_sum(stat, row, nan, shape, 3, k, m),
                    cell_sum(stat, row, nan, shape, 0, k, n),
                    cell_sum(stat, row, nan, shape, 1, k, n),
                    cell_sum(stat, row, nan, shape, 2, k, n),
                    cell_sum(stat, row, nan, shape, 3, k, n),
                    a,
                    x,
                );
            }
            lemma_fold_bump(before, now, w as nat, r, x);
        } else {
            assert forall|t: int| 0 <= t < w implies now[t] == before[t] by {}
            crate::lanes::lemma_fold_same(before, now, w as nat);
        }
    }
}

/// With exact addition, the reduction of a row lane by lane gives the sum of
/// the row from left to right, for every cut.
pub proof fn law_lane_sum_is_running_sum<E: ComplexField, S: Statistic<E>>(
    stat: S,
    row: Seq<E>,
    nan: NanHandling,
    shape: Shape,
)
    requires
        exact::<S::Acc>(),
        shape.wf(),
    ensures
        lane_sum(stat, row, nan, shape) == running_sum(stat, row, nan, row.len()),
{
    lemma_lanes_sum_up(stat, row, nan, shape, row.len());
    let at_end = settled_at(stat, row, nan, shape, row.len());
    let settled = settled_lanes(stat, row, nan, shape);
    assert forall|r: int| 0 <= r < shape.width() implies at_end[r] == settled[r] by {}
    crate::lanes::lemma_fold_same(at_end, settled, shape.width() as nat);
}

/// What the first entry of a row contributes to its sum.
spec fn first_term<E: ComplexField, S: Statistic<E>>(
    stat: S,
    row: Seq<E>,
    nan: NanHandling,
) -> S::Acc {
    if counted(row[0], nan) {
        stat.term_spec(row[0])
    } else {
        S::Acc::zero_spec()
    }
}

/// With exact addition, the sum of a row is what its first entry contributes
/// plus the sum of the rest.
proof fn lemma_sum_from_second<E: ComplexField, S: Statistic<E>>(
    stat: S,
    row: Seq<E>,
    nan: NanHandling,
    n: nat,
)
    requires
        exact::<S::Acc>(),
        1 <= n <= row.len(),
    ensures
        running_sum(stat, row, nan, n) == first_term(stat, row, nan).plus_spec(
            running_sum(stat, row.subrange(1, row.len() as int), nan, (n - 1) as nat),
        ),
    decreases n,
{
    let rest = row.subrange(1, row.len() as int);
    let first = first_term(stat, row, nan);
    let zero = S::Acc::zero_spec();
    if n == 1 {
        assert(running_sum(stat, row, nan, 0) == zero);
        assert(running_sum(stat, rest, nan, 0) == zero);
        lemma_zero_is_neutral(first);
    } else {
        lemma_sum_from_second(stat, row, nan, (n - 1) as nat);
        assert(rest[n - 2] == row[n - 1]);
        let inner = running_sum(stat, rest, nan, (n - 2) as nat);
        if counted(row[n - 1], nan) {
            lemma_associates(first, inner, stat.term_spec(row[n - 1]));
        }
    }
}

/// With exact addition, a row read backwards has the same sum as the row
/// itself.
pub proof fn lemma_running_sum_reversed<E: ComplexField, S: Statistic<E>>(
    stat: S,
    row: Seq<E>,
    back: Seq<E>,
    nan: NanHandling,
    n: nat,
)
    requires
        exact::<S::Acc>(),
        n <= row.len(),
        back.len() == n,
        forall|j: int| 0 <= j < n ==> back[j] == row[n - 1 - j],
    ensures
        running_sum(stat, back, nan, n) == running_sum(stat, row, nan, n),
    decreases n,
{
    if n > 0 {
        let rest = back.subrange(1, n as int);
        lemma_sum_from_second(stat, back, nan, n);
        assert forall|j: int| 0 <= j < n - 1 implies rest[j] == row[n - 2 - j] by {
            assert(rest[j] == back[j + 1]);
        }
        lemma_running_sum_reversed(stat, row, rest, nan, (n - 1) as nat);
        let before = running_sum(stat, row, nan, (n - 1) as nat);
        assert(back[0] == row[n - 1]);
        if counted(row[n - 1], nan) {
            lemma_commutes(stat.term_spec(row[n - 1]), before);
        } else {
            lemma_zero_is_neutral(before);
        }
    }
}

/// With exact addition, whatever the strides of the view, a row is reduced
/// to the sum of its entries from the first column to the last.
pub proof fn law_row_sum_is_running_sum<E: ComplexField, S: Statistic<E>>(
    stat: S,
    mat: MatRef<'_, E>,
    i: int,
    nan: NanHandling,
)
    requires
        exact::<S::Acc>(),
        mat.wf(),
        0 <= i < mat.rows(),
    ensures
        row_sum(stat, mat, i, nan) == running_sum(stat, mat.row(i), nan, mat.cols()),
{
    mat.lemma_cols_reversed();
    let walked = mat.normalized();
    Shape::lemma_cut(LANES, walked.origin() as usize);
    law_lane_sum_is_running_sum(stat, walked.row(i), nan, row_shape(mat));
    if mat.col_step() < 0 {
        let back = walked.row(i);
        assert forall|j: int| 0 <= j < mat.cols() implies back[j] == mat.row(i)[mat.cols() - 1
            - j] by {
            assert(back[j] == walked.at(i, j));
        }
        lemma_running_sum_reversed(stat, mat.row(i), back, nan, mat.cols());
    }
}

/// Whether two views show the same matrix: the same size and the same entry
/// in every place.
pub open spec fn same_entries<E: ComplexField>(a: MatRef<'_, E>, b: MatRef<'_, E>) -> bool {
    &&& a.rows() == b.rows()
    &&& a.cols() == b.cols()
    &&& forall|i: int, j: int|
        0 <= i < a.rows() && 0 <= j < a.cols() ==> #[trigger] a.at(i, j) == b.at(i, j)
}

/// Two views of the same matrix have the same rows.
proof fn lemma_same_rows<E: ComplexField>(a: MatRef<'_, E>, b: MatRef<'_, E>, i: int)
    requires
        same_entries(a, b),
        0 <= i < a.rows(),
    ensures
        a.row(i) == b.row(i),
{
    assert forall|j: int| 0 <= j < a.cols() implies a.row(i)[j] == b.row(i)[j] by {
        assert(a.at(i, j) == b.at(i, j));
    }
    assert(a.row(i) =~= b.row(i));
}

/// With exact addition of entries, two layouts of the same matrix have the
/// same means: contiguous or strided, forwards or backwards.
pub proof fn law_mean_ignores_layout<E: ComplexField>(
    out: Seq<E>,
    a: MatRef<'_, E>,
    b: MatRef<'_, E>,
    nan: NanHandling,
)
    requires
        exact::<E>(),
        a.wf(),
        b.wf(),
        same_entries(a, b),
    ensures
        is_col_mean(out, a, nan) <==> is_col_mean(out, b, nan),
{
    assert forall|i: int| 0 <= i < a.rows() implies row_sum(Plain, a, i, nan) == row_sum(
        Plain,
        b,
        i,
        nan,
    ) && row_count(a, i, nan) == row_count(b, i, nan) by {
        lemma_same_rows(a, b, i);
        law_row_sum_is_running_sum(Plain, a, i, nan);
        law_row_sum_is_running_sum(Plain, b, i, nan);
    }
}

/// With exact addition of squared magnitudes, two layouts of the same matrix
/// have the same variances about the same means.
pub proof fn law_variance_ignores_layout<E: ComplexField>(
    out: Seq<E::Real>,
    a: MatRef<'_, E>,
    b: MatRef<'_, E>,
    means: Seq<E>,
    nan: NanHandling,
)
    requires
        exact::<E::Real>(),
        a.wf(),
        b.wf(),
        same_entries(a, b),
    ensures
        is_col_varm(out, a, means, nan) <==> is_col_varm(out, b, means, nan),
{
    assert forall|i: int| 0 <= i < a.rows() implies row_sum(
        Deviation { mean: means[i] },
        a,
        i,
        nan,
    ) == row_sum(Deviation { mean: means[i] }, b, i, nan) && row_count(a, i, nan) == row_count(
        b,
        i,
        nan,
    ) by {
        lemma_same_rows(a, b, i);
        law_row_sum_is_running_sum(Deviation { mean: means[i] }, a, i, nan);
        law_row_sum_is_running_sum(Deviation { mean: means[i] }, b, i, nan);
    }
}

} // verus!
