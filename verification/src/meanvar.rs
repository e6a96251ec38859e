//! Means and variances of the rows and columns of a matrix.
//!
//! A column mean is the mean over the columns, taken row by row: one value
//! for every row of the matrix. A row mean is the mean over the rows, one
//! value for every column. The variances are sample variances about means
//! that the caller has computed before.
use crate::finalize::{finish_mean, finish_variance, is_mean, is_variance};
use crate::kernel::{reduce_row_contiguous, reduce_row_strided};
use crate::matrix::MatRef;
use crate::scalar::ComplexField;
use crate::schedule::{lane_sum, Shape, LANES};
use crate::sums::{
    count_valid, lemma_count_bounded, lemma_count_reversed, running_sum, Deviation, NanHandling,
    Plain, Statistic,
};
use vstd::prelude::*;

verus! {

/// The sum to which row `i` of `mat` is reduced.
pub open spec fn row_sum<E: ComplexField, S: Statistic<E>>(
    stat: S,
    mat: MatRef<'_, E>,
    i: int,
    nan: NanHandling,
) -> S::Acc {
    let walked = mat.normalized();
    if walked.col_step() == 1 {
        lane_sum(stat, walked.row(i), nan, row_shape(mat))
    } else {
        running_sum(stat, walked.row(i), nan, mat.cols())
    }
}

/// How the rows of `mat` are cut into vectors where they are contiguous: into
/// `LANES` lanes, and so that in the first row the cuts fall on the positions
/// of the slice that are multiples of `LANES`. Every row is cut alike.
pub open spec fn row_shape<E: ComplexField>(mat: MatRef<'_, E>) -> Shape {
    Shape::cut(LANES, mat.normalized().origin() as usize)
}

/// The number of entries of row `i` of `mat` that take part in its sum.
pub open spec fn row_count<E: ComplexField>(mat: MatRef<'_, E>, i: int, nan: NanHandling) -> nat {
    count_valid(mat.row(i), nan, mat.cols())
}

/// Bringing a view into walking orientation changes neither its size nor how
/// many entries of a row take part.
proof fn lemma_walked_count<E: ComplexField>(mat: MatRef<'_, E>, i: int, nan: NanHandling)
    requires
        mat.wf(),
        0 <= i < mat.rows(),
    ensures
        mat.normalized().wf(),
        mat.normalized().rows() == mat.rows(),
        mat.normalized().cols() == mat.cols(),
        count_valid(mat.normalized().row(i), nan, mat.cols()) == row_count(mat, i, nan),
        row_count(mat, i, nan) <= mat.cols(),
{
    mat.lemma_cols_reversed();
    lemma_count_bounded(mat.row(i), nan, mat.cols());
    if mat.col_step() < 0 {
        let back = mat.cols_reversed().row(i);
        assert forall|j: int| 0 <= j < mat.cols() implies back[j] == mat.row(i)[mat.cols() - 1
            - j] by {
            assert(back[j] == mat.cols_reversed().at(i, j));
        }
        lemma_count_reversed(mat.row(i), back, nan, mat.cols());
    }
}

/// Whether `out` holds, for every row of `mat`, the mean over its columns.
pub open spec fn is_col_mean<E: ComplexField>(
    out: Seq<E>,
    mat: MatRef<'_, E>,
    nan: NanHandling,
) -> bool {
    &&& out.len() == mat.rows()
    &&& forall|i: int|
        0 <= i < mat.rows() ==> is_mean(
            #[trigger] out[i],
            row_sum(Plain, mat, i, nan),
            row_count(mat, i, nan) as usize,
        )
}

/// Whether `out` holds, for every row of `mat`, the sample variance over its
/// columns about the mean that `means` gives for that row.
pub open spec fn is_col_varm<E: ComplexField>(
    out: Seq<E::Real>,
    mat: MatRef<'_, E>,
    means: Seq<E>,
    nan: NanHandling,
) -> bool {
    &&& out.len() == mat.rows()
    &&& forall|i: int|
        0 <= i < mat.rows() ==> is_variance(
            #[trigger] out[i],
            row_sum(Deviation { mean: means[i] }, mat, i, nan),
            row_count(mat, i, nan) as usize,
        )
}

/// Whether `out` holds, for every column of `mat`, the mean over its rows.
pub open spec fn is_row_mean<E: ComplexField>(
    out: Seq<E>,
    mat: MatRef<'_, E>,
    nan: NanHandling,
) -> bool {
    is_col_mean(out, mat.transposed(), nan)
}

/// Whether `out` holds, for every column of `mat`, the sample variance over
/// its rows about the mean that `means` gives for that column.
pub open spec fn is_row_varm<E: ComplexField>(
    out: Seq<E::Real>,
    mat: MatRef<'_, E>,
    means: Seq<E>,
    nan: NanHandling,
) -> bool {
    is_col_varm(out, mat.transposed(), means, nan)
}

/// Reduces row `i` of a view that has been brought into walking orientation.
fn reduce_row<E: ComplexField, S: Statistic<E>>(
    stat: &S,
    mat: &MatRef<'_, E>,
    i: usize,
    nan: NanHandling,
) -> (r: (S::Acc, usize))
    requires
        mat.wf(),
        i < mat.rows(),
    ensures
        r.0 == if mat.col_step() == 1 {
            lane_sum(*stat, mat.row(i as int), nan, Shape::cut(LANES, mat.origin() as usize))
        } else {
            running_sum(*stat, mat.row(i as int), nan, mat.cols())
        },
        r.1 == count_valid(mat.row(i as int), nan, mat.cols()),
{
    if mat.col_stride() == 1 {
        let shape = Shape::for_rows(mat.start());
        proof {
            Shape::lemma_cut(LANES, mat.origin() as usize);
        }
        reduce_row_contiguous::<E, S, LANES>(stat, mat.row_slice(i), nan, &shape)
    } else {
        reduce_row_strided(stat, mat, i, nan)
    }
}

/// Writes the mean of every row of `mat` to `out`, under policy `nan`.
fn col_mean_under<E: ComplexField>(out: &mut Vec<E>, mat: &MatRef<'_, E>, nan: NanHandling)
    requires
        mat.wf(),
        old(out).len() == mat.rows(),
    ensures
        is_col_mean(final(out)@, *mat, nan),
{
    let m: usize = mat.nrows();
    let walked = mat.normalize();
    let mut i: usize = 0;
    while i < m
        invariant
            mat.wf(),
            walked.wf(),
            walked == mat.normalized(),
            walked.rows() == mat.rows(),
            walked.cols() == mat.cols(),
            m == mat.rows(),
            out.len() == m,
            i <= m,
            forall|k: int|
                0 <= k < i ==> is_mean(
                    #[trigger] out@[k],
                    row_sum(Plain, *mat, k, nan),
                    row_count(*mat, k, nan) as usize,
                ),
        decreases m - i,
    {
        proof {
            lemma_walked_count(*mat, i as int, nan);
        }
        let (sum, count) = reduce_row(&Plain, &walked, i, nan);
        let mean: E = finish_mean(sum, count);
        out.set(i, mean);
        i = i + 1;
    }
}

/// Writes the sample variance of every row of `mat` about its mean in `means`
/// to `out`, under policy `nan`.
fn col_varm_under<E: ComplexField>(
    out: &mut Vec<E::Real>,
    mat: &MatRef<'_, E>,
    means: &[E],
    nan: NanHandling,
)
    requires
        mat.wf(),
        old(out).len() == mat.rows(),
        means@.len() == mat.rows(),
    ensures
        is_col_varm(final(out)@, *mat, means@, nan),
{
    let m: usize = mat.nrows();
    let walked = mat.normalize();
    let mut i: usize = 0;
    while i < m
        invariant
            mat.wf(),
            walked.wf(),
            walked == mat.normalized(),
            walked.rows() == mat.rows(),
            walked.cols() == mat.cols(),
            m == mat.rows(),
            out.len() == m,
            means@.len() == m,
            i <= m,
            forall|k: int|
                0 <= k < i ==> is_variance(
                    #[trigger] out@[k],
                    row_sum(Deviation { mean: means@[k] }, *mat, k, nan),
                    row_count(*mat, k, nan) as usize,
                ),
        decreases m - i,
    {
        let stat = Deviation { mean: means[i] };
        proof {
            lemma_walked_count(*mat, i as int, nan);
        }
        let (sum, count) = reduce_row(&stat, &walked, i, nan);
        let variance: E::Real = finish_variance(sum, count);
        out.set(i, variance);
        i = i + 1;
    }
}

/// Writes to `out` the mean of every row of `mat`, every entry taking part.
pub fn col_mean_propagate<E: ComplexField>(out: &mut Vec<E>, mat: &MatRef<'_, E>)
    requires
        mat.wf(),
        old(out).len() == mat.rows(),
    ensures
        is_col_mean(final(out)@, *mat, NanHandling::Propagate),
{
    col_mean_under(out, mat, NanHandling::Propagate)
}

/// Writes to `out` the mean of every column of `mat`, every entry taking
/// part.
pub fn row_mean_propagate<E: ComplexField>(out: &mut Vec<E>, mat: &MatRef<'_, E>)
    requires
        mat.wf(),
        old(out).len() == mat.cols(),
    ensures
        is_row_mean(final(out)@, *mat, NanHandling::Propagate),
{
    proof {
        mat.lemma_transposed();
    }
    col_mean_propagate(out, &mat.transpose())
}

/// Writes to `out` the sample variance of every row of `mat` about its mean
/// in `col_mean`, every entry taking part.
pub fn col_varm_propagate<E: ComplexField>(
    out: &mut Vec<E::Real>,
    mat: &MatRef<'_, E>,
    col_mean: &[E],
)
    requires
        mat.wf(),
        old(out).len() == mat.rows(),
        col_mean@.len() == mat.rows(),
    ensures
        is_col_varm(final(out)@, *mat, col_mean@, NanHandling::Propagate),
{
    col_varm_under(out, mat, col_mean, NanHandling::Propagate)
}

/// Writes to `out` the sample variance of every column of `mat` about its
/// mean in `row_mean`, every entry taking part.
pub fn row_varm_propagate<E: ComplexField>(
    out: &mut Vec<E::Real>,
    mat: &MatRef<'_, E>,
    row_mean: &[E],
)
    requires
        mat.wf(),
        old(out).len() == mat.cols(),
        row_mean@.len() == mat.cols(),
    ensures
        is_row_varm(final(out)@, *mat, row_mean@, NanHandling::Propagate),
{
    proof {
        mat.lemma_transposed();
    }
    col_varm_propagate(out, &mat.transpose(), row_mean)
}

/// Writes to `out` the mean of every row of `mat` over the entries that are
/// numbers.
pub fn col_mean_ignore<E: ComplexField>(out: &mut Vec<E>, mat: &MatRef<'_, E>)
    requires
        mat.wf(),
        old(out).len() == mat.rows(),
    ensures
        is_col_mean(final(out)@, *mat, NanHandling::Ignore),
{
    col_mean_under(out, mat, NanHandling::Ignore)
}

/// Writes to `out` the mean of every column of `mat` over the entries that
/// are numbers.
pub fn row_mean_ignore<E: ComplexField>(out: &mut Vec<E>, mat: &MatRef<'_, E>)
    requires
        mat.wf(),
        old(out).len() == mat.cols(),
    ensures
        is_row_mean(final(out)@, *mat, NanHandling::Ignore),
{
    proof {
        mat.lemma_transposed();
    }
    col_mean_ignore(out, &mat.transpose())
}

/// Writes to `out` the sample variance of every row of `mat` about its mean
/// in `col_mean`, over the entries that are numbers.
pub fn col_varm_ignore<E: ComplexField>(
    out: &mut Vec<E::Real>,
    mat: &MatRef<'_, E>,
    col_mean: &[E],
)
    requires
        mat.wf(),
        old(out).len() == mat.rows(),
        col_mean@.len() == mat.rows(),
    ensures
        is_col_varm(final(out)@, *mat, col_mean@, NanHandling::Ignore),
{
    col_varm_under(out, mat, col_mean, NanHandling::Ignore)
}

/// Writes to `out` the sample variance of every column of `mat` about its
/// mean in `row_mean`, over the entries that are numbers.
pub fn row_varm_ignore<E: ComplexField>(
    out: &mut Vec<E::Real>,
    mat: &MatRef<'_, E>,
    row_mean: &[E],
)
    requires
        mat.wf(),
        old(out).len() == mat.cols(),
        row_mean@.len() == mat.cols(),
    ensures
        is_row_varm(final(out)@, *mat, row_mean@, NanHandling::Ignore),
{
    proof {
        mat.lemma_transposed();
    }
    col_varm_ignore(out, &mat.transpose(), row_mean)
}

/// Computes the mean of the columns of `mat`, one value for every row, and
/// stores the result in `out`.
pub fn col_mean<E: ComplexField>(out: &mut Vec<E>, mat: &MatRef<'_, E>, nan: NanHandling)
    requires
        mat.wf(),
        old(out).len() == mat.rows(),
    ensures
        is_col_mean(final(out)@, *mat, nan),
{
    match nan {
        NanHandling::Propagate => col_mean_propagate(out, mat),
        NanHandling::Ignore => col_mean_ignore(out, mat),
    }
}

/// Computes the mean of the rows of `mat`, one value for every column, and
/// stores the result in `out`.
pub fn row_mean<E: ComplexField>(out: &mut Vec<E>, mat: &MatRef<'_, E>, nan: NanHandling)
    requires
        mat.wf(),
        old(out).len() == mat.cols(),
    ensures
        is_row_mean(final(out)@, *mat, nan),
{
    match nan {
        NanHandling::Propagate => row_mean_propagate(out, mat),
        NanHandling::Ignore => row_mean_ignore(out, mat),
    }
}

/// Computes the variance of the columns of `mat` given their mean, one value
/// for every row, and stores the result in `out`.
pub fn col_varm<E: ComplexField>(
    out: &mut Vec<E::Real>,
    mat: &MatRef<'_, E>,
    col_mean: &[E],
    nan: NanHandling,
)
    requires
        mat.wf(),
        old(out).len() == mat.rows(),
        col_mean@.len() == mat.rows(),
    ensures
        is_col_varm(final(out)@, *mat, col_mean@, nan),
{
    match nan {
        NanHandling::Propagate => col_varm_propagate(out, mat, col_mean),
        NanHandling::Ignore => col_varm_ignore(out, mat, col_mean),
    }
}

/// Computes the variance of the rows of `mat` given their mean, one value for
/// every column, and stores the result in `out`.
pub fn row_varm<E: ComplexField>(
    out: &mut Vec<E::Real>,
    mat: &MatRef<'_, E>,
    row_mean: &[E],
    nan: NanHandling,
)
    requires
        mat.wf(),
        old(out).len() == mat.cols(),
        row_mean@.len() == mat.cols(),
    ensures
        is_row_varm(final(out)@, *mat, row_mean@, nan),
{
    match nan {
        NanHandling::Propagate => row_varm_propagate(out, mat, row_mean),
        NanHandling::Ignore => row_varm_ignore(out, mat, row_mean),
    }
}

} // verus!
