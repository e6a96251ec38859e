//! Entry types whose arithmetic corresponds give corresponding results.
//!
//! The engine reaches its entries through their operations alone. So where
//! one entry type stands for another, value for value and operation for
//! operation (as a packed complex layout stands for the complex numbers over
//! its real scalar), the means and variances of a matrix of the one stand for
//! those of the same matrix of the other.
use crate::finalize::{high_part, is_mean, is_variance, low_part, usize_scalar};
use crate::lanes::fold_lanes;
use crate::matrix::MatRef;
use crate::meanvar::{is_col_mean, is_col_varm, row_count, row_shape, row_sum};
use crate::scalar::{Additive, ComplexField, RealField};
use crate::schedule::{cell_sum, lane_sum, lane_total, settled_lanes, Shape, LANES};
use crate::sums::{count_valid, counted, running_sum, Deviation, NanHandling, Plain, Statistic};
use vstd::prelude::*;

verus! {

/// Whether `t` keeps zero and sums.
pub open spec fn keeps_sums<T: Additive, U: Additive>(t: spec_fn(T) -> U) -> bool {
    &&& t(T::zero_spec()) == U::zero_spec()
    &&& forall|a: T, b: T| #[trigger] t(a.plus_spec(b)) == t(a).plus_spec(t(b))
}

/// Whether the real scalars of one type stand for those of another under `g`:
/// `g` keeps zero, sums, products, reciprocals, the scalars that stand for
/// integers, and what is not a number.
pub open spec fn reals_alike<R: RealField, Q: RealField>(g: spec_fn(R) -> Q) -> bool {
    &&& keeps_sums(g)
    &&& forall|x: R| (#[trigger] g(x)).is_nan_spec() == x.is_nan_spec()
    &&& forall|x: R, f: R| #[trigger] g(x.times_spec(f)) == g(x).times_spec(g(f))
    &&& forall|x: R| #[trigger] g(x.inverse_spec()) == g(x).inverse_spec()
    &&& forall|n: u64| #[trigger] g(R::from_u64_spec(n)) == Q::from_u64_spec(n)
}

/// Whether the entries of one type stand for those of another under `h`, and
/// their real scalars under `g`: `h` keeps zero, sums and what is not a
/// number, and together with `g` it keeps scaling and the squared distance of
/// two entries.
pub open spec fn entries_alike<A: ComplexField, B: ComplexField>(
    h: spec_fn(A) -> B,
    g: spec_fn(A::Real) -> B::Real,
) -> bool {
    &&& reals_alike(g)
    &&& keeps_sums(h)
    &&& forall|a: A| (#[trigger] h(a)).is_nan_spec() == a.is_nan_spec()
    &&& forall|a: A, f: A::Real| #[trigger] h(a.scale_real_spec(f)) == h(a).scale_real_spec(g(f))
    &&& forall|a: A, m: A|
        g(#[trigger] a.minus_spec(m).abs2_spec()) == h(a).minus_spec(h(m)).abs2_spec()
}

/// Whether two views lay out their entries alike, and every entry of the
/// second stands for the entry of the first in the same place.
pub open spec fn views_alike<A: ComplexField, B: ComplexField>(
    a: MatRef<'_, A>,
    b: MatRef<'_, B>,
    h: spec_fn(A) -> B,
) -> bool {
    &&& a.rows() == b.rows()
    &&& a.cols() == b.cols()
    &&& a.origin() == b.origin()
    &&& a.row_step() == b.row_step()
    &&& a.col_step() == b.col_step()
    &&& forall|i: int, j: int|
        0 <= i < a.rows() && 0 <= j < a.cols() ==> #[trigger] b.at(i, j) == h(a.at(i, j))
}

/// Whether every entry of the second row takes part exactly when the entry
/// of the first row in the same place does, and contributes what stands for
/// the contribution of that entry.
pub open spec fn rows_alike<A: ComplexField, B: ComplexField, SA: Statistic<A>, SB: Statistic<B>>(
    sa: SA,
    sb: SB,
    ra: Seq<A>,
    rb: Seq<B>,
    nan: NanHandling,
    t: spec_fn(SA::Acc) -> SB::Acc,
) -> bool {
    &&& ra.len() == rb.len()
    &&& forall|j: int|
        0 <= j < ra.len() ==> counted(#[trigger] ra[j], nan) == counted(rb[j], nan) && t(
            sa.term_spec(ra[j]),
        ) == sb.term_spec(rb[j])
}

/// The sums from left to right of two rows that are alike correspond.
proof fn lemma_running_sum_alike<
    A: ComplexField,
    B: ComplexField,
    SA: Statistic<A>,
    SB: Statistic<B>,
>(sa: SA, sb: SB, ra: Seq<A>, rb: Seq<B>, nan: NanHandling, t: spec_fn(SA::Acc) -> SB::Acc, n: nat)
    requires
        keeps_sums(t),
        rows_alike(sa, sb, ra, rb, nan, t),
        n <= ra.len(),
    ensures
        t(running_sum(sa, ra, nan, n)) == running_sum(sb, rb, nan, n),
        count_valid(ra, nan, n) == count_valid(rb, nan, n),
    decreases n,
{
    if n > 0 {
        lemma_running_sum_alike(sa, sb, ra, rb, nan, t, (n - 1) as nat);
        let j = n - 1;
        assert(counted(ra[j], nan) == counted(rb[j], nan));
        assert(t(sa.term_spec(ra[j])) == sb.term_spec(rb[j]));
        let before = running_sum(sa, ra, nan, (n - 1) as nat);
        assert(t(before.plus_spec(sa.term_spec(ra[j]))) == t(before).plus_spec(
            t(sa.term_spec(ra[j])),
        ));
    }
}

/// What the lanes of the accumulators hold for two rows that are alike
/// corresponds.
proof fn lemma_cell_sum_alike<
    A: ComplexField,
    B: ComplexField,
    SA: Statistic<A>,
    SB: Statistic<B>,
>(
    sa: SA,
    sb: SB,
    ra: Seq<A>,
    rb: Seq<B>,
    nan: NanHandling,
    t: spec_fn(SA::Acc) -> SB::Acc,
    shape: Shape,
    a: int,
    k: int,
    n: nat,
)
    requires
        keeps_sums(t),
        rows_alike(sa, sb, ra, rb, nan, t),
        n <= ra.len(),
    ensures
        t(cell_sum(sa, ra, nan, shape, a, k, n)) == cell_sum(sb, rb, nan, shape, a, k, n),
    decreases n,
{
    if n > 0 {
        lemma_cell_sum_alike(sa, sb, ra, rb, nan, t, shape, a, k, (n - 1) as nat);
        let j = n - 1;
        assert(counted(ra[j], nan) == counted(rb[j], nan));
        assert(t(sa.term_spec(ra[j])) == sb.term_spec(rb[j]));
        let before = cell_sum(sa, ra, nan, shape, a, k, (n - 1) as nat);
        assert(t(before.plus_spec(sa.term_spec(ra[j]))) == t(before).plus_spec(
            t(sa.term_spec(ra[j])),
        ));
    }
}

/// The sums of the lanes of two vectors that correspond lane by lane
/// correspond.
proof fn lemma_fold_alike<T: Additive, U: Additive>(
    u: Seq<T>,
    v: Seq<U>,
    t: spec_fn(T) -> U,
    n: nat,
)
    requires
        keeps_sums(t),
        v[0] == t(u[0]),
        forall|k: int| 0 <= k < n ==> v[k] == t(u[k]),
    ensures
        t(fold_lanes(u, n)) == fold_lanes(v, n),
    decreases n,
{
    if n > 1 {
        lemma_fold_alike(u, v, t, (n - 1) as nat);
        let before = fold_lanes(u, (n - 1) as nat);
        assert(t(before.plus_spec(u[n - 1])) == t(before).plus_spec(t(u[n - 1])));
    }
}

/// The sums lane by lane of two rows that are alike correspond.
proof fn lemma_lane_sum_alike<
    A: ComplexField,
    B: ComplexField,
    SA: Statistic<A>,
    SB: Statistic<B>,
>(
    sa: SA,
    sb: SB,
    ra: Seq<A>,
    rb: Seq<B>,
    nan: NanHandling,
    t: spec_fn(SA::Acc) -> SB::Acc,
    shape: Shape,
)
    requires
        keeps_sums(t),
        rows_alike(sa, sb, ra, rb, nan, t),
        shape.wf(),
    ensures
        t(lane_sum(sa, ra, nan, shape)) == lane_sum(sb, rb, nan, shape),
{
    let u = settled_lanes(sa, ra, nan, shape);
    let v = settled_lanes(sb, rb, nan, shape);
    let n = ra.len();
    assert forall|r: int| 0 <= r < shape.width() implies #[trigger] v[r] == t(u[r]) by {
        let k = (r + shape.shift()) % shape.width();
        lemma_cell_sum_alike(sa, sb, ra, rb, nan, t, shape, 0, k, n);
        lemma_cell_sum_alike(sa, sb, ra, rb, nan, t, shape, 1, k, n);
        lemma_cell_sum_alike(sa, sb, ra, rb, nan, t, shape, 2, k, n);
        lemma_cell_sum_alike(sa, sb, ra, rb, nan, t, shape, 3, k, n);
        let c0 = cell_sum(sa, ra, nan, shape, 0, k, n);
        let c1 = cell_sum(sa, ra, nan, shape, 1, k, n);
        let c2 = cell_sum(sa, ra, nan, shape, 2, k, n);
        let c3 = cell_sum(sa, ra, nan, shape, 3, k, n);
        assert(t(c0.plus_spec(c1)) == t(c0).plus_spec(t(c1)));
        assert(t(c2.plus_spec(c3)) == t(c2).plus_spec(t(c3)));
        assert(t(c0.plus_spec(c1).plus_spec(c2.plus_spec(c3))) == t(c0.plus_spec(c1)).plus_spec(
            t(c2.plus_spec(c3)),
        ));
        assert(u[r] == lane_total(sa, ra, nan, shape, k));
        assert(v[r] == lane_total(sb, rb, nan, shape, k));
    }
    assert(v[0] == t(u[0]));
    lemma_fold_alike(u, v, t, shape.width() as nat);
}

/// In two views that are alike, a row is reduced to sums that correspond and
/// to the same count.
proof fn lemma_row_alike<A: ComplexField, B: ComplexField, SA: Statistic<A>, SB: Statistic<B>>(
    sa: SA,
    sb: SB,
    a: MatRef<'_, A>,
    b: MatRef<'_, B>,
    h: spec_fn(A) -> B,
    t: spec_fn(SA::Acc) -> SB::Acc,
    i: int,
    nan: NanHandling,
)
    requires
        a.wf(),
        b.wf(),
        views_alike(a, b, h),
        forall|x: A| (#[trigger] h(x)).is_nan_spec() == x.is_nan_spec(),
        keeps_sums(t),
        forall|x: A| t(#[trigger] sa.term_spec(x)) == sb.term_spec(h(x)),
        0 <= i < a.rows(),
    ensures
        t(row_sum(sa, a, i, nan)) == row_sum(sb, b, i, nan),
        row_count(a, i, nan) == row_count(b, i, nan),
{
    a.lemma_cols_reversed();
    b.lemma_cols_reversed();
    let wa = a.normalized();
    let wb = b.normalized();
    let ra = wa.row(i);
    let rb = wb.row(i);
    assert(rows_alike(sa, sb, ra, rb, nan, t)) by {
        assert forall|j: int| 0 <= j < ra.len() implies counted(#[trigger] ra[j], nan) == counted(
            rb[j],
            nan,
        ) && t(sa.term_spec(ra[j])) == sb.term_spec(rb[j]) by {
            assert(ra[j] == wa.at(i, j));
            assert(rb[j] == wb.at(i, j));
            if a.col_step() < 0 {
                assert(wa.at(i, j) == a.at(i, a.cols() - 1 - j));
                assert(wb.at(i, j) == b.at(i, b.cols() - 1 - j));
                assert(b.at(i, a.cols() - 1 - j) == h(a.at(i, a.cols() - 1 - j)));
            } else {
                assert(b.at(i, j) == h(a.at(i, j)));
            }
            assert(rb[j] == h(ra[j]));
            assert(h(ra[j]).is_nan_spec() == ra[j].is_nan_spec());
            assert(t(sa.term_spec(ra[j])) == sb.term_spec(h(ra[j])));
        }
    }
    lemma_running_sum_alike(sa, sb, ra, rb, nan, t, ra.len());
    Shape::lemma_cut(LANES, wa.origin() as usize);
    assert(row_shape(a) == row_shape(b));
    lemma_lane_sum_alike(sa, sb, ra, rb, nan, t, row_shape(a));
    let pa = a.row(i);
    let pb = b.row(i);
    assert(rows_alike(sa, sb, pa, pb, nan, t)) by {
        assert forall|j: int| 0 <= j < pa.len() implies counted(#[trigger] pa[j], nan) == counted(
            pb[j],
            nan,
        ) && t(sa.term_spec(pa[j])) == sb.term_spec(pb[j]) by {
            assert(pa[j] == a.at(i, j));
            assert(pb[j] == b.at(i, j));
            assert(b.at(i, j) == h(a.at(i, j)));
            assert(h(pa[j]).is_nan_spec() == pa[j].is_nan_spec());
            assert(t(sa.term_spec(pa[j])) == sb.term_spec(h(pa[j])));
        }
    }
    lemma_running_sum_alike(sa, sb, pa, pb, nan, t, pa.len());
}

/// Where the real scalars of one type stand for those of another, so do the
/// scalars that stand for a count.
proof fn lemma_count_scalar_alike<R: RealField, Q: RealField>(g: spec_fn(R) -> Q, n: usize)
    requires
        reals_alike(g),
    ensures
        g(usize_scalar::<R>(n)) == usize_scalar::<Q>(n),
        g(usize_scalar::<R>(n).inverse_spec()) == usize_scalar::<Q>(n).inverse_spec(),
{
    let low = R::from_u64_spec(low_part(n));
    let high = R::from_u64_spec(high_part(n));
    assert(g(low) == Q::from_u64_spec(low_part(n)));
    assert(g(high) == Q::from_u64_spec(high_part(n)));
    assert(g(low.plus_spec(high)) == g(low).plus_spec(g(high)));
    assert(g(usize_scalar::<R>(n).inverse_spec()) == g(usize_scalar::<R>(n)).inverse_spec());
}

/// Where the entries of one type stand for those of another, the means of a
/// matrix of the one stand for the means of the matrix of the other that is
/// laid out alike.
pub proof fn law_means_alike<A: ComplexField, B: ComplexField>(
    out: Seq<A>,
    a: MatRef<'_, A>,
    b: MatRef<'_, B>,
    h: spec_fn(A) -> B,
    g: spec_fn(A::Real) -> B::Real,
    nan: NanHandling,
)
    requires
        entries_alike(h, g),
        a.wf(),
        b.wf(),
        views_alike(a, b, h),
        is_col_mean(out, a, nan),
    ensures
        is_col_mean(out.map_values(h), b, nan),
{
    let image = out.map_values(h);
    a.lemma_size_fits();
    assert forall|i: int| 0 <= i < b.rows() implies is_mean(
        #[trigger] image[i],
        row_sum(Plain, b, i, nan),
        row_count(b, i, nan) as usize,
    ) by {
        lemma_row_alike(Plain, Plain, a, b, h, h, i, nan);
        let count = row_count(a, i, nan) as usize;
        let sum = row_sum(Plain, a, i, nan);
        assert(is_mean(out[i], sum, count));
        assert(image[i] == h(out[i]));
        assert(h(out[i]).is_nan_spec() == out[i].is_nan_spec());
        if count != 0 {
            let factor = usize_scalar::<A::Real>(count).inverse_spec();
            lemma_count_scalar_alike::<A::Real, B::Real>(g, count);
            assert(h(sum.scale_real_spec(factor)) == h(sum).scale_real_spec(g(factor)));
        }
    }
}

/// Where the entries of one type stand for those of another, the variances
/// of a matrix of the one stand for the variances of the matrix of the other
/// that is laid out alike, about the means that stand for its means.
pub proof fn law_variances_alike<A: ComplexField, B: ComplexField>(
    out: Seq<A::Real>,
    a: MatRef<'_, A>,
    b: MatRef<'_, B>,
    means: Seq<A>,
    h: spec_fn(A) -> B,
    g: spec_fn(A::Real) -> B::Real,
    nan: NanHandling,
)
    requires
        entries_alike(h, g),
        a.wf(),
        b.wf(),
        views_alike(a, b, h),
        means.len() == a.rows(),
        is_col_varm(out, a, means, nan),
    ensures
        is_col_varm(out.map_values(g), b, means.map_values(h), nan),
{
    let image = out.map_values(g);
    let centres = means.map_values(h);
    a.lemma_size_fits();
    assert forall|i: int| 0 <= i < b.rows() implies is_variance(
        #[trigger] image[i],
        row_sum(Deviation { mean: centres[i] }, b, i, nan),
        row_count(b, i, nan) as usize,
    ) by {
        let sa = Deviation { mean: means[i] };
        let sb = Deviation { mean: centres[i] };
        assert(centres[i] == h(means[i]));
        assert forall|x: A| g(#[trigger] sa.term_spec(x)) == sb.term_spec(h(x)) by {
            assert(g(x.minus_spec(means[i]).abs2_spec()) == h(x).minus_spec(
                h(means[i]),
            ).abs2_spec());
        }
        lemma_row_alike(sa, sb, a, b, h, g, i, nan);
        let count = row_count(a, i, nan) as usize;
        let sum = row_sum(sa, a, i, nan);
        assert(is_variance(out[i], sum, count));
        assert(image[i] == g(out[i]));
        assert(g(out[i]).is_nan_spec() == out[i].is_nan_spec());
        if count > 1 {
            let factor = usize_scalar::<A::Real>((count - 1) as usize).inverse_spec();
            lemma_count_scalar_alike::<A::Real, B::Real>(g, (count - 1) as usize);
            assert(g(sum.times_spec(factor)) == g(sum).times_spec(g(factor)));
        }
    }
}

} // verus!
