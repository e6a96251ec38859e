use meanvar::finalize::{finish_mean, finish_variance};
use meanvar::kernel::{reduce_row_contiguous, reduce_row_strided};
use meanvar::lanes::{add_lanes, index_add, reduce, reduce_add, rotate_left, splat};
use meanvar::schedule::{FLUSH_INTERVAL, LANES, MAX_LANES};
use meanvar::sums::{Deviation, Plain, Statistic};
use meanvar::{from_usize, Additive, ComplexField, MatRef, NanHandling, RealField, Shape};

#[derive(Copy, Clone, Debug, PartialEq)]
struct R64(f64);

impl Additive for R64 {
    fn zero_spec() -> Self {
        unreachable!()
    }
    fn plus_spec(self, _: Self) -> Self {
        unreachable!()
    }
    fn zero() -> Self {
        R64(0.0)
    }
    fn plus(self, rhs: Self) -> Self {
        R64(self.0 + rhs.0)
    }
}

impl RealField for R64 {
    fn is_nan_spec(self) -> bool {
        unreachable!()
    }
    fn minus_spec(self, _: Self) -> Self {
        unreachable!()
    }
    fn times_spec(self, _: Self) -> Self {
        unreachable!()
    }
    fn inverse_spec(self) -> Self {
        unreachable!()
    }
    fn from_u64_spec(_: u64) -> Self {
        unreachable!()
    }
    fn nan() -> Self {
        R64(f64::NAN)
    }
    fn is_nan(self) -> bool {
        self.0.is_nan()
    }
    fn minus(self, rhs: Self) -> Self {
        R64(self.0 - rhs.0)
    }
    fn times(self, rhs: Self) -> Self {
        R64(self.0 * rhs.0)
    }
    fn inverse(self) -> Self {
        R64(1.0 / self.0)
    }
    fn from_u64(n: u64) -> Self {
        R64(n as f64)
    }
}

impl ComplexField for R64 {
    type Real = R64;

    fn is_nan_spec(self) -> bool {
        unreachable!()
    }
    fn minus_spec(self, _: Self) -> Self {
        unreachable!()
    }
    fn abs2_spec(self) -> R64 {
        unreachable!()
    }
    fn scale_real_spec(self, _: R64) -> Self {
        unreachable!()
    }
    fn nan() -> Self {
        R64(f64::NAN)
    }
    fn is_nan(self) -> bool {
        self.0.is_nan()
    }
    fn minus(self, rhs: Self) -> Self {
        R64(self.0 - rhs.0)
    }
    fn abs2(self) -> R64 {
        R64(self.0 * self.0)
    }
    fn scale_real(self, factor: R64) -> Self {
        R64(self.0 * factor.0)
    }
}

fn reals(values: &[f64]) -> Vec<R64> {
    values.iter().map(|&x| R64(x)).collect()
}

// Counts as scalars.

#[test]
fn from_usize_of_small_counts() {
    assert_eq!(from_usize::<R64>(0), R64(0.0));
    assert_eq!(from_usize::<R64>(1), R64(1.0));
    assert_eq!(from_usize::<R64>(1000), R64(1000.0));
    assert_eq!(from_usize::<R64>(0xffff_ffff), R64(4294967295.0));
}

#[test]
fn from_usize_of_counts_past_32_bits() {
    assert_eq!(from_usize::<R64>(0x1_0000_0000), R64(4294967296.0));
    assert_eq!(from_usize::<R64>(0x1_0000_0007), R64(4294967303.0));
    assert_eq!(from_usize::<R64>(0x20_0000_0000_0002), R64(9007199254740994.0));
}

// A scalar that records how it was made, to see the two parts of a count.
#[derive(Copy, Clone, Debug, PartialEq)]
struct Parts(u64, u64);

impl Additive for Parts {
    fn zero_spec() -> Self {
        unreachable!()
    }
    fn plus_spec(self, _: Self) -> Self {
        unreachable!()
    }
    fn zero() -> Self {
        Parts(0, 0)
    }
    fn plus(self, rhs: Self) -> Self {
        Parts(self.0, rhs.0)
    }
}

impl RealField for Parts {
    fn is_nan_spec(self) -> bool {
        unreachable!()
    }
    fn minus_spec(self, _: Self) -> Self {
        unreachable!()
    }
    fn times_spec(self, _: Self) -> Self {
        unreachable!()
    }
    fn inverse_spec(self) -> Self {
        unreachable!()
    }
    fn from_u64_spec(_: u64) -> Self {
        unreachable!()
    }
    fn nan() -> Self {
        Parts(u64::MAX, u64::MAX)
    }
    fn is_nan(self) -> bool {
        self == Parts(u64::MAX, u64::MAX)
    }
    fn minus(self, _: Self) -> Self {
        self
    }
    fn times(self, _: Self) -> Self {
        self
    }
    fn inverse(self) -> Self {
        self
    }
    fn from_u64(n: u64) -> Self {
        Parts(n, 0)
    }
}

#[test]
fn from_usize_splits_after_32_bits() {
    assert_eq!(from_usize::<Parts>(5), Parts(5, 0));
    assert_eq!(from_usize::<Parts>(0x1_0000_0000), Parts(0, 0x1_0000_0000));
    assert_eq!(from_usize::<Parts>(0xabc_1234_5678), Parts(0x1234_5678, 0xabc_0000_0000));
}

// From sums to statistics.

#[test]
fn finish_mean_divides_by_the_count() {
    assert_eq!(finish_mean(R64(10.0), 4), R64(2.5));
    assert_eq!(finish_mean(R64(-3.0), 1), R64(-3.0));
    assert!(finish_mean(R64(10.0), 0).0.is_nan());
    assert!(finish_mean(R64(0.0), 0).0.is_nan());
}

#[test]
fn finish_variance_divides_by_the_count_less_one() {
    assert_eq!(finish_variance(R64(10.0), 5), R64(2.5));
    assert_eq!(finish_variance(R64(10.0), 2), R64(10.0));
    assert_eq!(finish_variance(R64(10.0), 1), R64(0.0));
    assert_eq!(finish_variance(R64(f64::NAN), 1), R64(0.0));
    assert!(finish_variance(R64(10.0), 0).0.is_nan());
}

#[test]
fn contributions() {
    assert_eq!(Statistic::<R64>::term(&Plain, R64(-2.5)), R64(-2.5));
    let about = Deviation { mean: R64(1.5) };
    assert_eq!(about.term(R64(-2.5)), R64(16.0));
    assert_eq!(about.term(R64(1.5)), R64(0.0));
}

// Views.

#[test]
fn view_reads_by_strides() {
    let data = reals(&[0.0, 1.0, 2.0, 3.0, 4.0, 5.0, 6.0, 7.0]);
    let a = MatRef::new(&data, 2, 3, 1, 3, 1).unwrap();
    assert_eq!((a.nrows(), a.ncols()), (2, 3));
    assert_eq!((a.row_stride(), a.col_stride(), a.start()), (3, 1, 1));
    assert_eq!(a.read(0, 0), R64(1.0));
    assert_eq!(a.read(0, 2), R64(3.0));
    assert_eq!(a.read(1, 0), R64(4.0));
    assert_eq!(a.read(1, 2), R64(6.0));

    let b = MatRef::new(&data, 2, 2, 7, -4, -2).unwrap();
    assert_eq!(b.read(0, 0), R64(7.0));
    assert_eq!(b.read(0, 1), R64(5.0));
    assert_eq!(b.read(1, 0), R64(3.0));
    assert_eq!(b.read(1, 1), R64(1.0));
}

#[test]
fn view_is_refused_when_an_entry_falls_outside() {
    let data = reals(&[0.0; 6]);
    assert!(MatRef::new(&data, 2, 3, 0, 3, 1).is_some());
    assert!(MatRef::new(&data, 2, 3, 1, 3, 1).is_none());
    assert!(MatRef::new(&data, 2, 4, 0, 3, 1).is_none());
    assert!(MatRef::new(&data, 3, 2, 0, 3, 1).is_none());
    assert!(MatRef::new(&data, 2, 3, 0, 3, -1).is_none());
    assert!(MatRef::new(&data, 2, 3, 2, 3, -1).is_some());
    assert!(MatRef::new(&data, 2, 3, 5, -3, -1).is_some());
    assert!(MatRef::new(&data, 2, 3, 4, -3, -1).is_none());
    assert!(MatRef::new(&data, 1, 1, 6, 1, 1).is_none());
    assert!(MatRef::new(&data, 1, 1, 5, 1, 1).is_some());
    assert!(MatRef::new(&data, 2, 2, 0, isize::MAX, 1).is_none());
    assert!(MatRef::new(&data, usize::MAX, 2, 0, 1, 1).is_none());
}

#[test]
fn view_without_entries_is_always_accepted() {
    let data = reals(&[0.0; 2]);
    assert!(MatRef::new(&data, 0, 5, 100, 7, 9).is_some());
    assert!(MatRef::new(&data, 5, 0, 100, -7, 9).is_some());
    let none: Vec<R64> = Vec::new();
    assert!(MatRef::new(&none, 0, 0, 0, 1, 1).is_some());
    assert!(MatRef::new(&none, 1, 1, 0, 1, 1).is_none());
}

#[test]
fn view_refuses_the_most_negative_stride() {
    let data = reals(&[0.0; 2]);
    assert!(MatRef::new(&data, 1, 1, 0, isize::MIN, 1).is_none());
    assert!(MatRef::new(&data, 1, 1, 0, 1, isize::MIN).is_none());
    assert!(MatRef::new(&data, 0, 0, 0, isize::MIN, 1).is_none());
    assert!(MatRef::new(&data, 1, 1, 0, isize::MIN + 1, isize::MAX).is_some());
}

#[test]
fn transpose_swaps_the_roles_of_the_strides() {
    let data = reals(&[0.0, 1.0, 2.0, 3.0, 4.0, 5.0]);
    let a = MatRef::new(&data, 2, 3, 0, 3, 1).unwrap();
    let t = a.transpose();
    assert_eq!((t.nrows(), t.ncols()), (3, 2));
    assert_eq!((t.row_stride(), t.col_stride(), t.start()), (1, 3, 0));
    for i in 0..2 {
        for j in 0..3 {
            assert_eq!(t.read(j, i), a.read(i, j));
        }
    }
    let back = t.transpose();
    assert_eq!((back.nrows(), back.ncols()), (2, 3));
    assert_eq!((back.row_stride(), back.col_stride()), (3, 1));
}

#[test]
fn reverse_cols_walks_each_row_backwards() {
    let data = reals(&[0.0, 1.0, 2.0, 3.0, 4.0, 5.0]);
    let a = MatRef::new(&data, 2, 3, 0, 3, 1).unwrap();
    let r = a.reverse_cols();
    assert_eq!((r.nrows(), r.ncols()), (2, 3));
    assert_eq!((r.row_stride(), r.col_stride(), r.start()), (3, -1, 2));
    for i in 0..2 {
        for j in 0..3 {
            assert_eq!(r.read(i, j), a.read(i, 2 - j));
        }
    }
    let again = r.reverse_cols();
    assert_eq!((again.col_stride(), again.start()), (1, 0));

    let empty = MatRef::new(&data, 0, 3, 4, 3, 2).unwrap().reverse_cols();
    assert_eq!((empty.start(), empty.col_stride()), (4, -2));
}

#[test]
fn normalize_reverses_only_a_negative_column_stride() {
    let data = reals(&[0.0, 1.0, 2.0, 3.0, 4.0, 5.0]);
    let forward = MatRef::new(&data, 2, 3, 0, 3, 1).unwrap().normalize();
    assert_eq!((forward.col_stride(), forward.start()), (1, 0));
    let backward = MatRef::new(&data, 2, 3, 2, 3, -1).unwrap();
    let walked = backward.normalize();
    assert_eq!((walked.col_stride(), walked.start()), (1, 0));
    assert_eq!(walked.read(1, 0), backward.read(1, 2));
    let rows_up = MatRef::new(&data, 2, 3, 3, -3, 1).unwrap().normalize();
    assert_eq!((rows_up.row_stride(), rows_up.col_stride(), rows_up.start()), (-3, 1, 3));
}

// Cuts.

#[test]
fn shape_bounds() {
    assert!(Shape::new(0, 0).is_none());
    assert!(Shape::new(1, 0).is_some());
    assert!(Shape::new(1, 1).is_none());
    assert!(Shape::new(4, 3).is_some());
    assert!(Shape::new(4, 4).is_none());
    assert!(Shape::new(MAX_LANES, MAX_LANES - 1).is_some());
    assert!(Shape::new(MAX_LANES + 1, 0).is_none());
    let s = Shape::new(8, 5).unwrap();
    assert_eq!((s.lanes(), s.offset()), (8, 5));
}

#[test]
fn shape_aligned_to_multiples_of_the_width() {
    let s = Shape::aligned(4, 10).unwrap();
    assert_eq!((s.lanes(), s.offset()), (4, 2));
    let s = Shape::aligned(4, 8).unwrap();
    assert_eq!((s.lanes(), s.offset()), (4, 0));
    let s = Shape::aligned(1, 12345).unwrap();
    assert_eq!((s.lanes(), s.offset()), (1, 0));
    assert!(Shape::aligned(0, 3).is_none());
    assert!(Shape::aligned(MAX_LANES + 1, 3).is_none());
}

#[test]
fn constants() {
    assert_eq!(LANES, 4);
    assert_eq!(MAX_LANES, 64);
    assert_eq!(FLUSH_INTERVAL, 63);
    assert!(4 * FLUSH_INTERVAL <= 255);
    assert!(4 * (FLUSH_INTERVAL + 1) > 255);
}

// Vectors of lanes.

#[test]
fn lanes_splat() {
    assert_eq!(splat(7u8, 3), vec![7, 7, 7]);
    assert_eq!(splat(R64(1.5), 0), Vec::<R64>::new());
}

#[test]
fn lanes_add() {
    let mut a = reals(&[1.0, 2.0, 3.0]);
    let b = reals(&[10.0, 20.0, 30.0]);
    add_lanes(&mut a, &b);
    assert_eq!(a, reals(&[11.0, 22.0, 33.0]));
}

#[test]
fn lanes_rotate_left() {
    let v = vec![10u8, 11, 12, 13, 14];
    assert_eq!(rotate_left(&v, 0), vec![10, 11, 12, 13, 14]);
    assert_eq!(rotate_left(&v, 2), vec![12, 13, 14, 10, 11]);
    assert_eq!(rotate_left(&v, 4), vec![14, 10, 11, 12, 13]);
    assert_eq!(rotate_left(&vec![3u8], 0), vec![3]);
}

#[test]
fn lanes_reduce_add_goes_from_lane_zero_upwards() {
    assert_eq!(reduce_add(&reals(&[4.0])), R64(4.0));
    assert_eq!(reduce_add(&reals(&[1.0, 2.0, 3.5])), R64(6.5));
    // The order shows in rounding: (1 + 1e100) - 1e100 is 0, not 1.
    assert_eq!(reduce_add(&reals(&[1.0, 1e100, -1e100])), R64(0.0));
    assert_eq!(reduce_add(&reals(&[1e100, -1e100, 1.0])), R64(1.0));
}

#[test]
fn lanes_counters() {
    let mut a = vec![0u8, 100, 63];
    let b = vec![1u8, 155, 63];
    index_add(&mut a, &b);
    assert_eq!(a, vec![1, 255, 126]);
    assert_eq!(reduce(&a), 382);
    assert_eq!(reduce(&Vec::new()), 0);
    assert_eq!(reduce(&vec![255u8; 64]), 16320);
}

// The two reductions of a row.

fn row_with_gaps(len: usize) -> Vec<f64> {
    (0..len)
        .map(|j| if j % 5 == 3 { f64::NAN } else { ((j * 13) % 17) as f64 - 8.0 })
        .collect()
}

#[test]
fn strided_reduction_adds_from_left_to_right() {
    let data = reals(&[1.0, 1e100, -1e100, 5.0]);
    let a = MatRef::new(&data, 1, 4, 0, 4, 1).unwrap();
    let (sum, count) = reduce_row_strided(&Plain, &a, 0, NanHandling::Propagate);
    assert_eq!((sum, count), (R64(5.0), 4));
    let back = MatRef::new(&data, 1, 4, 3, 4, -1).unwrap();
    let (sum, count) = reduce_row_strided(&Plain, &back, 0, NanHandling::Propagate);
    assert_eq!((sum, count), (R64(1.0), 4));
}

#[test]
fn strided_reduction_skips_and_counts() {
    let data = reals(&[2.0, f64::NAN, 4.0, f64::NAN, 8.0]);
    let a = MatRef::new(&data, 1, 5, 0, 5, 1).unwrap();
    let (sum, count) = reduce_row_strided(&Plain, &a, 0, NanHandling::Ignore);
    assert_eq!((sum, count), (R64(14.0), 3));
    let (sum, count) = reduce_row_strided(&Plain, &a, 0, NanHandling::Propagate);
    assert!(sum.0.is_nan());
    assert_eq!(count, 5);
    let about = Deviation { mean: R64(4.0) };
    let (sum, count) = reduce_row_strided(&about, &a, 0, NanHandling::Ignore);
    assert_eq!((sum, count), (R64(20.0), 3));
}

// The reduction lane by lane, for the widths that the tests use.
fn by_lanes<S: Statistic<R64>>(
    stat: &S,
    row: &[R64],
    policy: NanHandling,
    lanes: usize,
    offset: usize,
) -> (S::Acc, usize) {
    let shape = Shape::new(lanes, offset).unwrap();
    match lanes {
        1 => reduce_row_contiguous::<R64, S, 1>(stat, row, policy, &shape),
        2 => reduce_row_contiguous::<R64, S, 2>(stat, row, policy, &shape),
        3 => reduce_row_contiguous::<R64, S, 3>(stat, row, policy, &shape),
        4 => reduce_row_contiguous::<R64, S, 4>(stat, row, policy, &shape),
        8 => reduce_row_contiguous::<R64, S, 8>(stat, row, policy, &shape),
        16 => reduce_row_contiguous::<R64, S, 16>(stat, row, policy, &shape),
        64 => reduce_row_contiguous::<R64, S, 64>(stat, row, policy, &shape),
        _ => panic!("no reduction of this width among the tests"),
    }
}

#[test]
fn lane_reduction_agrees_with_strided_for_every_cut() {
    for len in [0usize, 1, 2, 3, 4, 5, 7, 8, 9, 15, 16, 17, 31, 33, 64, 100] {
        let values = row_with_gaps(len);
        let data = reals(&values);
        let a = MatRef::new(&data, 1, len, 0, len as isize, 1).unwrap();
        for policy in [NanHandling::Ignore, NanHandling::Propagate] {
            let (expected, expected_count) = reduce_row_strided(&Plain, &a, 0, policy);
            for lanes in [1usize, 2, 3, 4, 8, 16, 64] {
                for offset in 0..lanes {
                    let (sum, count) = by_lanes(&Plain, &data, policy, lanes, offset);
                    assert_eq!(count, expected_count);
                    assert!(sum == expected || (sum.0.is_nan() && expected.0.is_nan()));
                }
            }
        }
    }
}

#[test]
fn lane_reduction_counts_across_flushes() {
    // More than one flush interval of rounds, for narrow and for wide vectors.
    for (lanes, offset) in [(1usize, 0usize), (2, 1), (4, 3)] {
        let len = 4 * lanes * (2 * FLUSH_INTERVAL + 5) + 3 * lanes + 2;
        let values = row_with_gaps(len);
        let kept = values.iter().filter(|x| !x.is_nan()).count();
        let total: f64 = values.iter().filter(|x| !x.is_nan()).sum();
        let data = reals(&values);
        let (sum, count) = by_lanes(&Plain, &data, NanHandling::Ignore, lanes, offset);
        assert_eq!(count, kept);
        assert_eq!(sum, R64(total));
        let (_, count) = by_lanes(&Plain, &data, NanHandling::Propagate, lanes, offset);
        assert_eq!(count, len);
    }
}

#[test]
fn lane_reduction_of_a_full_row_of_numbers_counts_every_entry() {
    let len = 4 * 4 * 300;
    let data = reals(&vec![1.0; len]);
    let (sum, count) = by_lanes(&Plain, &data, NanHandling::Ignore, 4, 0);
    assert_eq!((sum, count), (R64(len as f64), len));
}

#[test]
fn lane_reduction_keeps_four_accumulators_apart() {
    // One lane, no shift, ten entries: no head and no tail, a body of ten
    // vectors. The first eight go round the four accumulators twice, the last
    // two go to the first. So the accumulators take in the entries 0, 4, 8,
    // 9; then 1, 5; then 2, 6; then 3, 7. The huge entry meets its negative
    // before anything else is added to it.
    let big = 1e100;
    let data = reals(&[1.0, big, 3.0, 4.0, 5.0, -big, -3.0, -4.0, 7.0, 9.0]);
    let (sum, _) = by_lanes(&Plain, &data, NanHandling::Propagate, 1, 0);
    assert_eq!(sum, R64(22.0));
    // From left to right the huge entry swallows the four entries up to its
    // negative, and only what comes after is left.
    let a = MatRef::new(&data, 1, 10, 0, 10, 1).unwrap();
    let (sum, _) = reduce_row_strided(&Plain, &a, 0, NanHandling::Propagate);
    assert_eq!(sum, R64(9.0));
}

#[test]
fn lane_reduction_undoes_the_shift() {
    // Three lanes, shifted by one: the head is the entries 0 and 1 in the
    // lanes 1 and 2, the tail is entry 2 in lane 0. The lanes are added up
    // from lane 1 on, the lane of the first entry: (1e100 - 1e100) + 1. From
    // lane 0 on the huge entry would swallow the 1.
    let big = 1e100;
    let data = reals(&[big, -big, 1.0]);
    let (sum, count) = by_lanes(&Plain, &data, NanHandling::Propagate, 3, 1);
    assert_eq!((sum, count), (R64(1.0), 3));
    let (sum, _) = by_lanes(&Plain, &data, NanHandling::Propagate, 3, 0);
    assert_eq!(sum, R64(1.0));
    let (sum, _) = by_lanes(&Plain, &data, NanHandling::Propagate, 3, 2);
    assert_eq!(sum, R64(1.0));
}

#[test]
fn lane_reduction_of_deviations() {
    let data = reals(&[11.0, f64::NAN, 13.0, 14.0, 9.0, 10.0, 7.0]);
    let about = Deviation { mean: R64(10.0) };
    for lanes in [1usize, 2, 4] {
        for offset in 0..lanes {
            let (sum, count) = by_lanes(&about, &data, NanHandling::Ignore, lanes, offset);
            assert_eq!((sum, count), (R64(36.0), 6));
        }
    }
}

#[test]
fn row_slice_is_the_row() {
    let data = reals(&[0.0, 1.0, 2.0, 3.0, 4.0, 5.0, 6.0]);
    let a = MatRef::new(&data, 2, 3, 1, 3, 1).unwrap();
    assert_eq!(a.row_slice(0), &data[1..4]);
    assert_eq!(a.row_slice(1), &data[4..7]);
    let up = MatRef::new(&data, 2, 2, 4, -3, 1).unwrap();
    assert_eq!(up.row_slice(0), &data[4..6]);
    assert_eq!(up.row_slice(1), &data[1..3]);
    let empty = MatRef::new(&data, 2, 0, 50, 3, 1).unwrap();
    assert!(empty.row_slice(1).is_empty());
}
