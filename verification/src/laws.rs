//! What holds of the means and variances whatever the matrix.
use crate::finalize::usize_scalar;
use crate::lanes::{fold_lanes, lemma_fold_same};
use crate::matrix::MatRef;
use crate::meanvar::{
    is_col_mean, is_col_varm, is_row_mean, is_row_varm, row_count, row_shape, row_sum,
};
use crate::scalar::{Additive, ComplexField, RealField};
use crate::schedule::{cell_sum, lane_sum, lane_total, settled_lanes, Shape, LANES};
use crate::sums::{count_valid, running_sum, Deviation, NanHandling, Plain, Statistic};
use vstd::prelude::*;

verus! {

/// Whether no entry of `mat` is not a number.
pub open spec fn all_numbers<E: ComplexField>(mat: MatRef<'_, E>) -> bool {
    forall|i: int, j: int|
        0 <= i < mat.rows() && 0 <= j < mat.cols() ==> !(#[trigger] mat.at(i, j)).is_nan_spec()
}

/// Whether every entry of row `i` of `mat` is not a number.
pub open spec fn row_is_nan<E: ComplexField>(mat: MatRef<'_, E>, i: int) -> bool {
    forall|j: int| 0 <= j < mat.cols() ==> (#[trigger] mat.at(i, j)).is_nan_spec()
}

/// Transposition symmetry of the mean: the row means of a matrix are the
/// column means of its transpose, and the other way round.
pub proof fn law_mean_transposes<E: ComplexField>(out: Seq<E>, mat: MatRef<'_, E>, nan: NanHandling)
    requires
        mat.wf(),
    ensures
        is_row_mean(out, mat, nan) <==> is_col_mean(out, mat.transposed(), nan),
        is_col_mean(out, mat, nan) <==> is_row_mean(out, mat.transposed(), nan),
{
    mat.lemma_transposed();
}

/// Transposition symmetry of the variance: the row variances of a matrix are
/// the column variances of its transpose about the same means, and the other
/// way round.
pub proof fn law_variance_transposes<E: ComplexField>(
    out: Seq<E::Real>,
    mat: MatRef<'_, E>,
    means: Seq<E>,
    nan: NanHandling,
)
    requires
        mat.wf(),
    ensures
        is_row_varm(out, mat, means, nan) <==> is_col_varm(out, mat.transposed(), means, nan),
        is_col_varm(out, mat, means, nan) <==> is_row_varm(out, mat.transposed(), means, nan),
{
    mat.lemma_transposed();
}

/// In a row without an entry that is not a number, every entry takes part
/// under either policy.
proof fn lemma_count_full<E: ComplexField>(row: Seq<E>, nan: NanHandling, n: nat)
    requires
        n <= row.len(),
        forall|j: int| 0 <= j < n ==> !(#[trigger] row[j]).is_nan_spec(),
    ensures
        count_valid(row, nan, n) == n,
    decreases n,
{
    if n > 0 {
        lemma_count_full(row, nan, (n - 1) as nat);
        assert(!row[n - 1].is_nan_spec());
    }
}

/// In a row of entries that are not a number, none takes part once such
/// entries are ignored.
proof fn lemma_count_none<E: ComplexField>(row: Seq<E>, n: nat)
    requires
        n <= row.len(),
        forall|j: int| 0 <= j < n ==> (#[trigger] row[j]).is_nan_spec(),
    ensures
        count_valid(row, NanHandling::Ignore, n) == 0,
    decreases n,
{
    if n > 0 {
        lemma_count_none(row, (n - 1) as nat);
        assert(row[n - 1].is_nan_spec());
    }
}

/// Over a row without an entry that is not a number, the sum from left to
/// right is the same under both policies.
proof fn lemma_running_sum_agrees<E: ComplexField, S: Statistic<E>>(stat: S, row: Seq<E>, n: nat)
    requires
        n <= row.len(),
        forall|j: int| 0 <= j < n ==> !(#[trigger] row[j]).is_nan_spec(),
    ensures
        running_sum(stat, row, NanHandling::Ignore, n) == running_sum(
            stat,
            row,
            NanHandling::Propagate,
            n,
        ),
    decreases n,
{
    if n > 0 {
        lemma_running_sum_agrees(stat, row, (n - 1) as nat);
        assert(!row[n - 1].is_nan_spec());
    }
}

/// Over a row without an entry that is not a number, every lane of every
/// accumulator holds the same under both policies.
proof fn lemma_cell_sum_agrees<E: ComplexField, S: Statistic<E>>(
    stat: S,
    row: Seq<E>,
    shape: Shape,
    a: int,
    k: int,
    n: nat,
)
    requires
        n <= row.len(),
        forall|j: int| 0 <= j < n ==> !(#[trigger] row[j]).is_nan_spec(),
    ensures
        cell_sum(stat, row, NanHandling::Ignore, shape, a, k, n) == cell_sum(
            stat,
            row,
            NanHandling::Propagate,
            shape,
            a,
            k,
            n,
        ),
    decreases n,
{
    if n > 0 {
        lemma_cell_sum_agrees(stat, row, shape, a, k, (n - 1) as nat);
        assert(!row[n - 1].is_nan_spec());
    }
}

/// Over a row without an entry that is not a number, the sum lane by lane is
/// the same under both policies.
proof fn lemma_lane_sum_agrees<E: ComplexField, S: Statistic<E>>(stat: S, row: Seq<E>, shape: Shape)
    requires
        shape.wf(),
        forall|j: int| 0 <= j < row.len() ==> !(#[trigger] row[j]).is_nan_spec(),
    ensures
        lane_sum(stat, row, NanHandling::Ignore, shape) == lane_sum(
            stat,
            row,
            NanHandling::Propagate,
            shape,
        ),
{
    let ignoring = settled_lanes(stat, row, NanHandling::Ignore, shape);
    let keeping = settled_lanes(stat, row, NanHandling::Propagate, shape);
    assert forall|r: int| 0 <= r < shape.width() implies #[trigger] ignoring[r] == keeping[r] by {
        let k = (r + shape.shift()) % shape.width();
        lemma_cell_sum_agrees(stat, row, shape, 0, k, row.len());
        lemma_cell_sum_agrees(stat, row, shape, 1, k, row.len());
        lemma_cell_sum_agrees(stat, row, shape, 2, k, row.len());
        lemma_cell_sum_agrees(stat, row, shape, 3, k, row.len());
    }
    assert(ignoring[0] == keeping[0]);
    lemma_fold_same(ignoring, keeping, shape.width() as nat);
}

/// Over a matrix without an entry that is not a number, a row is reduced to
/// the same sum and the same count under both policies, and the count is the
/// number of columns.
proof fn lemma_row_agrees<E: ComplexField, S: Statistic<E>>(stat: S, mat: MatRef<'_, E>, i: int)
    requires
        mat.wf(),
        all_numbers(mat),
        0 <= i < mat.rows(),
    ensures
        row_sum(stat, mat, i, NanHandling::Ignore) == row_sum(
            stat,
            mat,
            i,
            NanHandling::Propagate,
        ),
        row_count(mat, i, NanHandling::Ignore) == mat.cols(),
        row_count(mat, i, NanHandling::Propagate) == mat.cols(),
{
    mat.lemma_cols_reversed();
    let walked = mat.normalized();
    let row = walked.row(i);
    assert forall|j: int| 0 <= j < row.len() implies !(#[trigger] row[j]).is_nan_spec() by {
        assert(row[j] == walked.at(i, j));
        if mat.col_step() < 0 {
            assert(walked.at(i, j) == mat.at(i, mat.cols() - 1 - j));
        }
    }
    lemma_running_sum_agrees(stat, row, row.len());
    Shape::lemma_cut(LANES, walked.origin() as usize);
    lemma_lane_sum_agrees(stat, row, row_shape(mat));
    assert forall|j: int| 0 <= j < mat.cols() implies !(#[trigger] mat.row(i)[j]).is_nan_spec() by {
        assert(mat.row(i)[j] == mat.at(i, j));
    }
    lemma_count_full(mat.row(i), NanHandling::Ignore, mat.cols());
    lemma_count_full(mat.row(i), NanHandling::Propagate, mat.cols());
}

/// Where no entry of a matrix is not a number, ignoring such entries changes
/// nothing: the column means and row means under the two policies are the
/// same.
pub proof fn law_mean_policies_agree<E: ComplexField>(out: Seq<E>, mat: MatRef<'_, E>)
    requires
        mat.wf(),
        all_numbers(mat),
    ensures
        is_col_mean(out, mat, NanHandling::Ignore) <==> is_col_mean(
            out,
            mat,
            NanHandling::Propagate,
        ),
        is_row_mean(out, mat, NanHandling::Ignore) <==> is_row_mean(
            out,
            mat,
            NanHandling::Propagate,
        ),
{
    assert forall|i: int| 0 <= i < mat.rows() implies row_sum(
        Plain,
        mat,
        i,
        NanHandling::Ignore,
    ) == row_sum(Plain, mat, i, NanHandling::Propagate) && row_count(
        mat,
        i,
        NanHandling::Ignore,
    ) == row_count(mat, i, NanHandling::Propagate) by {
        lemma_row_agrees(Plain, mat, i);
    }
    let t = mat.transposed();
    mat.lemma_transposed();
    assert(all_numbers(t)) by {
        assert forall|i: int, j: int| 0 <= i < t.rows() && 0 <= j < t.cols() implies !(
        #[trigger] t.at(i, j)).is_nan_spec() by {
            assert(t.at(i, j) == mat.at(j, i));
        }
    }
    assert forall|i: int| 0 <= i < t.rows() implies row_sum(Plain, t, i, NanHandling::Ignore)
        == row_sum(Plain, t, i, NanHandling::Propagate) && row_count(t, i, NanHandling::Ignore)
        == row_count(t, i, NanHandling::Propagate) by {
        lemma_row_agrees(Plain, t, i);
    }
}

/// Where no entry of a matrix is not a number, ignoring such entries changes
/// nothing: the column variances and row variances about given means are the
/// same under the two policies.
pub proof fn law_variance_policies_agree<E: ComplexField>(
    out: Seq<E::Real>,
    mat: MatRef<'_, E>,
    means: Seq<E>,
)
    requires
        mat.wf(),
        all_numbers(mat),
    ensures
        is_col_varm(out, mat, means, NanHandling::Ignore) <==> is_col_varm(
            out,
            mat,
            means,
            NanHandling::Propagate,
        ),
        is_row_varm(out, mat, means, NanHandling::Ignore) <==> is_row_varm(
            out,
            mat,
            means,
            NanHandling::Propagate,
        ),
{
    assert forall|i: int| 0 <= i < mat.rows() implies row_sum(
        Deviation { mean: means[i] },
        mat,
        i,
        NanHandling::Ignore,
    ) == row_sum(Deviation { mean: means[i] }, mat, i, NanHandling::Propagate) && row_count(
        mat,
        i,
        NanHandling::Ignore,
    ) == row_count(mat, i, NanHandling::Propagate) by {
        lemma_row_agrees(Deviation { mean: means[i] }, mat, i);
    }
    let t = mat.transposed();
    mat.lemma_transposed();
    assert(all_numbers(t)) by {
        assert forall|i: int, j: int| 0 <= i < t.rows() && 0 <= j < t.cols() implies !(
        #[trigger] t.at(i, j)).is_nan_spec() by {
            assert(t.at(i, j) == mat.at(j, i));
        }
    }
    assert forall|i: int| 0 <= i < t.rows() implies row_sum(
        Deviation { mean: means[i] },
        t,
        i,
        NanHandling::Ignore,
    ) == row_sum(Deviation { mean: means[i] }, t, i, NanHandling::Propagate) && row_count(
        t,
        i,
        NanHandling::Ignore,
    ) == row_count(t, i, NanHandling::Propagate) by {
        lemma_row_agrees(Deviation { mean: means[i] }, t, i);
    }
}

/// Under the ignoring policy, a row in which exactly one entry is a number
/// has the variance zero, whatever that entry and the mean are.
pub proof fn law_single_entry_variance<E: ComplexField>(
    out: Seq<E::Real>,
    mat: MatRef<'_, E>,
    means: Seq<E>,
    i: int,
)
    requires
        is_col_varm(out, mat, means, NanHandling::Ignore),
        0 <= i < mat.rows(),
        row_count(mat, i, NanHandling::Ignore) == 1,
    ensures
        out[i] == E::Real::zero_spec(),
{
}

/// Under the ignoring policy, a row in which every entry is not a number has
/// a mean that is not a number. This holds of a row without entries too.
pub proof fn law_nan_row_mean<E: ComplexField>(out: Seq<E>, mat: MatRef<'_, E>, i: int)
    requires
        mat.wf(),
        is_col_mean(out, mat, NanHandling::Ignore),
        0 <= i < mat.rows(),
        row_is_nan(mat, i),
    ensures
        out[i].is_nan_spec(),
{
    assert forall|j: int| 0 <= j < mat.cols() implies (#[trigger] mat.row(i)[j]).is_nan_spec() by {
        assert(mat.row(i)[j] == mat.at(i, j));
    }
    lemma_count_none(mat.row(i), mat.cols());
}

/// Under the ignoring policy, a row in which every entry is not a number has
/// a variance that is not a number. This holds of a row without entries too.
pub proof fn law_nan_row_variance<E: ComplexField>(
    out: Seq<E::Real>,
    mat: MatRef<'_, E>,
    means: Seq<E>,
    i: int,
)
    requires
        mat.wf(),
        is_col_varm(out, mat, means, NanHandling::Ignore),
        0 <= i < mat.rows(),
        row_is_nan(mat, i),
    ensures
        out[i].is_nan_spec(),
{
    assert forall|j: int| 0 <= j < mat.cols() implies (#[trigger] mat.row(i)[j]).is_nan_spec() by {
        assert(mat.row(i)[j] == mat.at(i, j));
    }
    lemma_count_none(mat.row(i), mat.cols());
}

/// Whether sums inherit the mark `bad` from their operands.
pub open spec fn spreads<T: Additive>(bad: spec_fn(T) -> bool) -> bool {
    forall|a: T, b: T| (bad(a) || bad(b)) ==> #[trigger] bad(a.plus_spec(b))
}

/// Whether every contribution of a row bears the mark `bad`.
pub open spec fn all_bad<E: ComplexField, S: Statistic<E>>(
    stat: S,
    row: Seq<E>,
    bad: spec_fn(S::Acc) -> bool,
) -> bool {
    forall|j: int| 0 <= j < row.len() ==> bad(#[trigger] stat.term_spec(row[j]))
}

/// Where sums inherit a mark from their operands and every contribution
/// bears it, the sum from left to right of one entry or more bears it too.
proof fn lemma_running_sum_marked<E: ComplexField, S: Statistic<E>>(
    stat: S,
    row: Seq<E>,
    bad: spec_fn(S::Acc) -> bool,
    n: nat,
)
    requires
        spreads(bad),
        all_bad(stat, row, bad),
        1 <= n <= row.len(),
    ensures
        bad(running_sum(stat, row, NanHandling::Propagate, n)),
    decreases n,
{
    assert(bad(stat.term_spec(row[n - 1])));
    if n > 1 {
        lemma_running_sum_marked(stat, row, bad, (n - 1) as nat);
    }
}

/// Where sums inherit a mark from their operands and every contribution
/// bears it, the lane that takes in the first entry bears it from then on.
proof fn lemma_first_cell_marked<E: ComplexField, S: Statistic<E>>(
    stat: S,
    row: Seq<E>,
    shape: Shape,
    bad: spec_fn(S::Acc) -> bool,
    n: nat,
)
    requires
        spreads(bad),
        all_bad(stat, row, bad),
        shape.wf(),
        1 <= n <= row.len(),
    ensures
        bad(cell_sum(stat, row, NanHandling::Propagate, shape, 0, shape.shift(), n)),
    decreases n,
{
    assert(bad(stat.term_spec(row[n - 1])));
    if n > 1 {
        lemma_first_cell_marked(stat, row, shape, bad, (n - 1) as nat);
    } else {
        vstd::arithmetic::div_mod::lemma_fundamental_div_mod_converse(
            0 + shape.shift(),
            shape.width(),
            0,
            shape.shift(),
        );
        vstd::arithmetic::div_mod::lemma_fundamental_div_mod_converse(0, shape.width(), 0, 0);
        assert(crate::schedule::goes_to(shape, row.len() as int, 0, 0, shape.shift()));
    }
}

/// Where sums inherit a mark from their operands, the lanes of a vector add
/// up to a marked value as soon as one of them is marked.
proof fn lemma_fold_marked<T: Additive>(u: Seq<T>, bad: spec_fn(T) -> bool, n: nat, lane: int)
    requires
        spreads(bad),
        0 <= lane < n,
        bad(u[lane]),
    ensures
        bad(fold_lanes(u, n)),
    decreases n,
{
    if n > 1 {
        if lane < n - 1 {
            lemma_fold_marked(u, bad, (n - 1) as nat, lane);
        }
    }
}

/// Where sums inherit a mark from their operands and every contribution of a
/// row of one entry or more bears it, the row is reduced to a marked sum
/// under the propagating policy, whatever the layout.
proof fn lemma_row_sum_marked<E: ComplexField, S: Statistic<E>>(
    stat: S,
    mat: MatRef<'_, E>,
    i: int,
    bad: spec_fn(S::Acc) -> bool,
)
    requires
        spreads(bad),
        mat.wf(),
        0 <= i < mat.rows(),
        mat.cols() >= 1,
        all_bad(stat, mat.row(i), bad),
    ensures
        bad(row_sum(stat, mat, i, NanHandling::Propagate)),
{
    mat.lemma_cols_reversed();
    let walked = mat.normalized();
    let row = walked.row(i);
    assert(all_bad(stat, row, bad)) by {
        assert forall|j: int| 0 <= j < row.len() implies bad(
            #[trigger] stat.term_spec(row[j]),
        ) by {
            assert(row[j] == walked.at(i, j));
            if mat.col_step() < 0 {
                assert(row[j] == mat.row(i)[mat.cols() - 1 - j]);
            } else {
                assert(row[j] == mat.row(i)[j]);
            }
        }
    }
    lemma_running_sum_marked(stat, row, bad, row.len());
    let shape = row_shape(mat);
    Shape::lemma_cut(LANES, walked.origin() as usize);
    lemma_first_cell_marked(stat, row, shape, bad, row.len());
    let settled = settled_lanes(stat, row, NanHandling::Propagate, shape);
    vstd::arithmetic::div_mod::lemma_fundamental_div_mod_converse(
        0 + shape.shift(),
        shape.width(),
        0,
        shape.shift(),
    );
    assert(settled[0] == lane_total(stat, row, NanHandling::Propagate, shape, shape.shift()));
    assert(bad(settled[0]));
    lemma_fold_marked(settled, bad, shape.width() as nat, 0);
}

/// Whether the arithmetic of `E` keeps what is not a number that way: a sum
/// with such an operand, such an entry scaled, and the squared distance of
/// such an entry from anything are not a number; and likewise sums and
/// products of real scalars.
pub open spec fn poisons<E: ComplexField>() -> bool {
    &&& spreads(|x: E| x.is_nan_spec())
    &&& spreads(|x: E::Real| x.is_nan_spec())
    &&& forall|x: E, f: E::Real| x.is_nan_spec() ==> (#[trigger] x.scale_real_spec(f)).is_nan_spec()
    &&& forall|x: E, m: E|
        x.is_nan_spec() ==> (#[trigger] x.minus_spec(m)).abs2_spec().is_nan_spec()
    &&& forall|x: E::Real, f: E::Real|
        x.is_nan_spec() ==> (#[trigger] x.times_spec(f)).is_nan_spec()
}

/// Under the propagating policy, where the arithmetic keeps what is not a
/// number that way, a row of one entry or more in which every entry is not a
/// number has a mean that is not a number.
pub proof fn law_nan_poisons_mean<E: ComplexField>(out: Seq<E>, mat: MatRef<'_, E>, i: int)
    requires
        poisons::<E>(),
        mat.wf(),
        is_col_mean(out, mat, NanHandling::Propagate),
        0 <= i < mat.rows(),
        mat.cols() >= 1,
        row_is_nan(mat, i),
    ensures
        out[i].is_nan_spec(),
{
    let bad = |x: E| x.is_nan_spec();
    assert(all_bad(Plain, mat.row(i), bad)) by {
        assert forall|j: int| 0 <= j < mat.row(i).len() implies bad(
            #[trigger] Plain.term_spec(mat.row(i)[j]),
        ) by {
            assert(mat.row(i)[j] == mat.at(i, j));
        }
    }
    lemma_row_sum_marked(Plain, mat, i, bad);
    crate::sums::lemma_count_bounded(mat.row(i), NanHandling::Propagate, mat.cols());
}

/// Under the propagating policy, where the arithmetic keeps what is not a
/// number that way, a row of two entries or more in which every entry is not
/// a number has a variance that is not a number. (A row of one entry has the
/// variance zero whatever it holds.)
pub proof fn law_nan_poisons_variance<E: ComplexField>(
    out: Seq<E::Real>,
    mat: MatRef<'_, E>,
    means: Seq<E>,
    i: int,
)
    requires
        poisons::<E>(),
        mat.wf(),
        means.len() == mat.rows(),
        is_col_varm(out, mat, means, NanHandling::Propagate),
        0 <= i < mat.rows(),
        mat.cols() >= 2,
        row_is_nan(mat, i),
    ensures
        out[i].is_nan_spec(),
{
    let bad = |x: E::Real| x.is_nan_spec();
    let stat = Deviation { mean: means[i] };
    assert(all_bad(stat, mat.row(i), bad)) by {
        assert forall|j: int| 0 <= j < mat.row(i).len() implies bad(
            #[trigger] stat.term_spec(mat.row(i)[j]),
        ) by {
            assert(mat.row(i)[j] == mat.at(i, j));
            assert(mat.at(i, j).minus_spec(means[i]).abs2_spec().is_nan_spec());
        }
    }
    lemma_row_sum_marked(stat, mat, i, bad);
    crate::sums::lemma_count_bounded(mat.row(i), NanHandling::Propagate, mat.cols());
    mat.lemma_size_fits();
    let sum = row_sum(stat, mat, i, NanHandling::Propagate);
    let factor = usize_scalar::<E::Real>((mat.cols() - 1) as usize).inverse_spec();
    assert(bad(sum));
    assert(sum.times_spec(factor).is_nan_spec());
}

/// Under the propagating policy the divisor is the number of columns,
/// whatever the entries: a matrix without columns has means and variances
/// that are not a number, and a matrix of one column has variances that are
/// zero.
pub proof fn law_propagate_by_length<E: ComplexField>(
    mean: Seq<E>,
    variance: Seq<E::Real>,
    mat: MatRef<'_, E>,
    means: Seq<E>,
    i: int,
)
    requires
        mat.wf(),
        is_col_mean(mean, mat, NanHandling::Propagate),
        is_col_varm(variance, mat, means, NanHandling::Propagate),
        0 <= i < mat.rows(),
    ensures
        row_count(mat, i, NanHandling::Propagate) == mat.cols(),
        mat.cols() == 0 ==> mean[i].is_nan_spec() && variance[i].is_nan_spec(),
        mat.cols() == 1 ==> variance[i] == E::Real::zero_spec(),
{
    crate::sums::lemma_count_bounded(mat.row(i), NanHandling::Propagate, mat.cols());
}

} // verus!
