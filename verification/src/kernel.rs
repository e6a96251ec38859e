//! The reduction of one row to a sum and a count.
use crate::lanes::{
    add_lanes, index_add, lane_count, lemma_lane_count_raised, lemma_lane_count_zero, reduce,
    reduce_add, rotate_left, splat,
};
use crate::matrix::MatRef;
use crate::scalar::{Additive, ComplexField};
use crate::schedule::{
    accumulator_at, accumulator_of, body_len, cell_sum, goes_to, head_len, lane_sum,
    settled_lanes, Shape, FLUSH_INTERVAL,
};
use crate::sums::{count_valid, lemma_count_bounded, running_sum, NanHandling, Statistic};
use vstd::arithmetic::div_mod::{
    lemma_fundamental_div_mod, lemma_fundamental_div_mod_converse, lemma_mod_self_0,
    lemma_small_mod,
};
use vstd::prelude::*;
use vstd::slice::slice_subrange;

verus! {

/// `pulp::as_arrays` splits a slice into chunks of `N` entries, known when
/// the program is built, and what is left over.
///
/// It returns the chunks, as many as fit into the slice and in the order of
/// the slice, and the rest of the slice after the last chunk, which has
/// fewer than `N` entries. It divides by `N`, so `N` may not be zero.
pub assume_specification<const N: usize, T>[ pulp::as_arrays::<N, T> ](slice: &[T]) -> (r: (
    &[[T; N]],
    &[T],
))
    requires
        N > 0,
    ensures
        r.0@.len() == slice@.len() / (N as nat),
        r.1@.len() == slice@.len() % (N as nat),
        forall|i: int, k: int|
            0 <= i < r.0@.len() && 0 <= k < N ==> #[trigger] r.0@[i]@[k] == slice@[i * N + k],
        forall|k: int|
            0 <= k < r.1@.len() ==> #[trigger] r.1@[k] == slice@[(slice@.len() / (N as nat)) * N
                + k],
;

/// Whether the lanes of `sum` hold what accumulator `a` holds once the first
/// `n` entries of `row` have been taken in.
pub open spec fn holds<E: ComplexField, S: Statistic<E>>(
    sum: Seq<S::Acc>,
    stat: S,
    row: Seq<E>,
    nan: NanHandling,
    shape: Shape,
    a: int,
    n: nat,
) -> bool {
    &&& sum.len() == shape.width()
    &&& forall|k: int|
        0 <= k < shape.width() ==> #[trigger] sum[k] == cell_sum(stat, row, nan, shape, a, k, n)
}

/// An accumulator keeps what it holds while the entries that are taken in go
/// to another one.
proof fn lemma_untouched<E: ComplexField, S: Statistic<E>>(
    sum: Seq<S::Acc>,
    stat: S,
    row: Seq<E>,
    nan: NanHandling,
    shape: Shape,
    a: int,
    b: int,
    col: nat,
    n: nat,
)
    requires
        a != b,
        holds(sum, stat, row, nan, shape, b, col),
        forall|t: int|
            0 <= t < n ==> #[trigger] accumulator_at(shape, row.len() as int, col + t) == a,
    ensures
        holds(sum, stat, row, nan, shape, b, col + n),
    decreases n,
{
    if n > 0 {
        lemma_untouched(sum, stat, row, nan, shape, a, b, col, (n - 1) as nat);
        let j = col + n - 1;
        assert(accumulator_at(shape, row.len() as int, col + (n - 1)) == a);
        assert forall|k: int| 0 <= k < shape.width() implies #[trigger] sum[k] == cell_sum(
            stat,
            row,
            nan,
            shape,
            b,
            k,
            col + n,
        ) by {
            assert(!goes_to(shape, row.len() as int, j, b, k));
            assert(sum[k] == cell_sum(stat, row, nan, shape, b, k, (col + n - 1) as nat));
        }
    }
}

/// An accumulator keeps what it holds while a vector is taken into another
/// one.
proof fn lemma_keep<E: ComplexField, S: Statistic<E>>(
    sum: Seq<S::Acc>,
    stat: S,
    row: Seq<E>,
    nan: NanHandling,
    shape: Shape,
    a: int,
    b: int,
    first_lane: int,
    col: nat,
    n: nat,
)
    requires
        a != b,
        holds(sum, stat, row, nan, shape, b, col),
        forall|t: int|
            0 <= t < n ==> #[trigger] goes_to(shape, row.len() as int, col + t, a, first_lane + t),
    ensures
        holds(sum, stat, row, nan, shape, b, col + n),
{
    assert forall|t: int| 0 <= t < n implies #[trigger] accumulator_at(
        shape,
        row.len() as int,
        col + t,
    ) == a by {
        assert(goes_to(shape, row.len() as int, col + t, a, first_lane + t));
    }
    lemma_untouched(sum, stat, row, nan, shape, a, b, col, n);
}

/// Takes the entries of one vector, which are the entries of `row` from
/// column `col` on, into the lanes `first_lane`, `first_lane + 1`, ... of one
/// accumulator: each entry that takes part is added to its lane of `sum`, and
/// under the ignoring policy raises its lane of `count` by one. The policy is
/// looked at once for the vector, not once for every entry.
fn take<E: ComplexField, S: Statistic<E>>(
    stat: &S,
    nan: NanHandling,
    shape: &Shape,
    Ghost(a): Ghost<int>,
    Ghost(row): Ghost<Seq<E>>,
    Ghost(col): Ghost<nat>,
    sum: &mut Vec<S::Acc>,
    count: &mut Vec<u8>,
    first_lane: usize,
    entries: &[E],
)
    requires
        shape.wf(),
        old(count)@.len() == shape.width(),
        first_lane + entries@.len() <= shape.width(),
        col + entries@.len() <= row.len(),
        forall|t: int| 0 <= t < entries@.len() ==> #[trigger] entries@[t] == row[col + t],
        forall|t: int|
            0 <= t < entries@.len() ==> #[trigger] goes_to(
                *shape,
                row.len() as int,
                col + t,
                a,
                first_lane + t,
            ),
        holds(old(sum)@, *stat, row, nan, *shape, a, col),
        forall|k: int| 0 <= k < shape.width() ==> old(count)@[k] < u8::MAX,
    ensures
        holds(final(sum)@, *stat, row, nan, *shape, a, col + entries@.len()),
        final(count)@.len() == shape.width(),
        forall|k: int|
            0 <= k < shape.width() ==> old(count)@[k] <= #[trigger] final(count)@[k] <= old(
                count,
            )@[k] + 1,
        nan == NanHandling::Ignore ==> lane_count(final(count)@, shape.width() as nat)
            + count_valid(row, nan, col) == lane_count(old(count)@, shape.width() as nat)
            + count_valid(row, nan, col + entries@.len()),
        nan == NanHandling::Propagate ==> final(count)@ == old(count)@,
{
    match nan {
        NanHandling::Propagate => accumulate(
            stat,
            shape,
            Ghost(a),
            Ghost(row),
            Ghost(col),
            sum,
            first_lane,
            entries,
        ),
        NanHandling::Ignore => process(
            stat,
            shape,
            Ghost(a),
            Ghost(row),
            Ghost(col),
            sum,
            count,
            first_lane,
            entries,
        ),
    }
}

/// Takes the entries of one vector in under the propagating policy: every
/// entry is added to its lane of `sum`, whatever it holds.
fn accumulate<E: ComplexField, S: Statistic<E>>(
    stat: &S,
    shape: &Shape,
    Ghost(a): Ghost<int>,
    Ghost(row): Ghost<Seq<E>>,
    Ghost(col): Ghost<nat>,
    sum: &mut Vec<S::Acc>,
    first_lane: usize,
    entries: &[E],
)
    requires
        shape.wf(),
        first_lane + entries@.len() <= shape.width(),
        col + entries@.len() <= row.len(),
        forall|t: int| 0 <= t < entries@.len() ==> #[trigger] entries@[t] == row[col + t],
        forall|t: int|
            0 <= t < entries@.len() ==> #[trigger] goes_to(
                *shape,
                row.len() as int,
                col + t,
                a,
                first_lane + t,
            ),
        holds(old(sum)@, *stat, row, NanHandling::Propagate, *shape, a, col),
    ensures
        holds(final(sum)@, *stat, row, NanHandling::Propagate, *shape, a, col + entries@.len()),
{
    let ghost w = shape.width() as nat;
    let ghost nan = NanHandling::Propagate;
    let n: usize = entries.len();
    let mut t: usize = 0;
    while t < n
        invariant
            shape.wf(),
            w == shape.width(),
            nan == NanHandling::Propagate,
            n == entries@.len(),
            first_lane + n <= w,
            col + n <= row.len(),
            t <= n,
            forall|u: int| 0 <= u < n ==> #[trigger] entries@[u] == row[col + u],
            forall|u: int|
                0 <= u < n ==> #[trigger] goes_to(
                    *shape,
                    row.len() as int,
                    col + u,
                    a,
                    first_lane + u,
                ),
            holds(sum@, *stat, row, nan, *shape, a, (col + t) as nat),
        decreases n - t,
    {
        let lane: usize = first_lane + t;
        let x: E = entries[t];
        let ghost j: int = col + t;
        let ghost sum_before = sum@;
        proof {
            assert(entries@[t as int] == row[col + t]);
            assert(goes_to(*shape, row.len() as int, col + t, a, first_lane + t));
        }
        let added: S::Acc = sum[lane].plus(stat.term(x));
        sum.set(lane, added);
        proof {
            assert forall|k: int| 0 <= k < w implies #[trigger] sum@[k] == cell_sum(
                *stat,
                row,
                nan,
                *shape,
                a,
                k,
                (col + t + 1) as nat,
            ) by {
                assert(sum_before[k] == cell_sum(
                    *stat,
                    row,
                    nan,
                    *shape,
                    a,
                    k,
                    (col + t) as nat,
                ));
                if k != lane {
                    assert(!goes_to(*shape, row.len() as int, j, a, k));
                }
            }
        }
        t = t + 1;
    }
}

/// Takes the entries of one vector in under the ignoring policy: every entry
/// that is a number is added to its lane of `sum` and raises its lane of
/// `count` by one; an entry that is not a number leaves both as they are.
fn process<E: ComplexField, S: Statistic<E>>(
    stat: &S,
    shape: &Shape,
    Ghost(a): Ghost<int>,
    Ghost(row): Ghost<Seq<E>>,
    Ghost(col): Ghost<nat>,
    sum: &mut Vec<S::Acc>,
    count: &mut Vec<u8>,
    first_lane: usize,
    entries: &[E],
)
    requires
        shape.wf(),
        old(count)@.len() == shape.width(),
        first_lane + entries@.len() <= shape.width(),
        col + entries@.len() <= row.len(),
        forall|t: int| 0 <= t < entries@.len() ==> #[trigger] entries@[t] == row[col + t],
        forall|t: int|
            0 <= t < entries@.len() ==> #[trigger] goes_to(
                *shape,
                row.len() as int,
                col + t,
                a,
                first_lane + t,
            ),
        holds(old(sum)@, *stat, row, NanHandling::Ignore, *shape, a, col),
        forall|k: int| 0 <= k < shape.width() ==> old(count)@[k] < u8::MAX,
    ensures
        holds(final(sum)@, *stat, row, NanHandling::Ignore, *shape, a, col + entries@.len()),
        final(count)@.len() == shape.width(),
        forall|k: int|
            0 <= k < shape.width() ==> old(count)@[k] <= #[trigger] final(count)@[k] <= old(
                count,
            )@[k] + 1,
        lane_count(final(count)@, shape.width() as nat) + count_valid(
            row,
            NanHandling::Ignore,
            col,
        ) == lane_count(old(count)@, shape.width() as nat) + count_valid(
            row,
            NanHandling::Ignore,
            col + entries@.len(),
        ),
{
    let ghost w = shape.width() as nat;
    let ghost nan = NanHandling::Ignore;
    let n: usize = entries.len();
    let mut t: usize = 0;
    while t < n
        invariant
            shape.wf(),
            w == shape.width(),
            nan == NanHandling::Ignore,
            n == entries@.len(),
            count@.len() == w,
            old(count)@.len() == w,
            first_lane + n <= w,
            col + n <= row.len(),
            t <= n,
            forall|u: int| 0 <= u < n ==> #[trigger] entries@[u] == row[col + u],
            forall|u: int|
                0 <= u < n ==> #[trigger] goes_to(
                    *shape,
                    row.len() as int,
                    col + u,
                    a,
                    first_lane + u,
                ),
            holds(sum@, *stat, row, nan, *shape, a, (col + t) as nat),
            forall|k: int| 0 <= k < w ==> old(count)@[k] < u8::MAX,
            forall|k: int|
                0 <= k < w ==> old(count)@[k] <= #[trigger] count@[k] <= old(count)@[k] + 1,
            forall|k: int| first_lane + t <= k < w ==> count@[k] == old(count)@[k],
            lane_count(count@, w) + count_valid(row, nan, col) == lane_count(old(count)@, w)
                + count_valid(row, nan, (col + t) as nat),
        decreases n - t,
    {
        let lane: usize = first_lane + t;
        let x: E = entries[t];
        let ghost j: int = col + t;
        let ghost sum_before = sum@;
        let ghost count_before = count@;
        proof {
            assert(entries@[t as int] == row[col + t]);
            assert(goes_to(*shape, row.len() as int, col + t, a, first_lane + t));
        }
        if !x.is_nan() {
            let added: S::Acc = sum[lane].plus(stat.term(x));
            sum.set(lane, added);
            let raised: u8 = count[lane] + 1;
            count.set(lane, raised);
            proof {
                lemma_lane_count_raised(count_before, count@, w, lane as int, 1);
            }
        }
        proof {
            assert forall|k: int| 0 <= k < w implies #[trigger] sum@[k] == cell_sum(
                *stat,
                row,
                nan,
                *shape,
                a,
                k,
                (col + t + 1) as nat,
            ) by {
                assert(sum_before[k] == cell_sum(
                    *stat,
                    row,
                    nan,
                    *shape,
                    a,
                    k,
                    (col + t) as nat,
                ));
                if k != lane {
                    assert(!goes_to(*shape, row.len() as int, j, a, k));
                }
            }
        }
        t = t + 1;
    }
}

/// Where the head of a row ends.
proof fn lemma_head_len(shape: Shape, len: int)
    requires
        shape.wf(),
        0 <= len,
    ensures
        0 <= head_len(shape, len) <= len,
        head_len(shape, len) + shape.shift() <= shape.width(),
        (shape.width() - shape.shift()) % shape.width() == if shape.shift() == 0 {
            0
        } else {
            shape.width() - shape.shift()
        },
        head_len(shape, len) < len ==> head_len(shape, len) + shape.shift() == if shape.shift()
            == 0 {
            0
        } else {
            shape.width()
        },
        0 <= body_len(shape, len),
        body_len(shape, len) * shape.width() <= len - head_len(shape, len),
{
    let w = shape.width();
    let p = shape.shift();
    if p == 0 {
        lemma_mod_self_0(w);
    } else {
        lemma_small_mod((w - p) as nat, w as nat);
    }
    let rest = len - head_len(shape, len);
    lemma_fundamental_div_mod(rest, w);
    assert(0 <= rest / w) by (nonlinear_arith)
        requires
            0 <= rest,
            1 <= w,
    ;
    assert(w * (rest / w) == (rest / w) * w) by (nonlinear_arith);
    vstd::arithmetic::div_mod::lemma_mod_bound(rest, w);
}

/// The entries before the first cut lie in the lanes from the shift of the
/// cut upwards, and go to the first accumulator.
proof fn lemma_head(shape: Shape, len: int)
    requires
        shape.wf(),
        0 <= len,
    ensures
        forall|t: int|
            0 <= t < head_len(shape, len) ==> #[trigger] goes_to(
                shape,
                len,
                0 + t,
                0,
                shape.shift() + t,
            ),
{
    lemma_head_len(shape, len);
    assert forall|t: int| 0 <= t < head_len(shape, len) implies #[trigger] goes_to(
        shape,
        len,
        0 + t,
        0,
        shape.shift() + t,
    ) by {
        lemma_fundamental_div_mod_converse(t + shape.shift(), shape.width(), 0, t + shape.shift());
    }
}

/// The first `n` entries of the vector that comes after the head and `v`
/// full vectors lie in its lanes from 0 upwards, and go to the accumulator
/// of that vector.
proof fn lemma_vector(shape: Shape, len: int, col: int, v: int, a: int, n: int)
    requires
        shape.wf(),
        0 <= len,
        0 <= v,
        col == head_len(shape, len) + v * shape.width(),
        0 <= n <= shape.width(),
        col + n <= len,
        accumulator_of(v, body_len(shape, len)) == a,
    ensures
        forall|t: int| 0 <= t < n ==> #[trigger] goes_to(shape, len, col + t, a, 0 + t),
{
    let w = shape.width();
    let p = shape.shift();
    let head = head_len(shape, len);
    assert(0 <= v * w) by (nonlinear_arith)
        requires
            0 <= v,
            1 <= w,
    ;
    lemma_head_len(shape, len);
    assert forall|t: int| 0 <= t < n implies #[trigger] goes_to(shape, len, col + t, a, 0 + t) by {
        let j = col + t;
        lemma_fundamental_div_mod_converse(j - head, w, v, t);
        if p == 0 {
            lemma_fundamental_div_mod_converse(j + p, w, v, t);
        } else {
            assert((v + 1) * w == v * w + w) by (nonlinear_arith);
            lemma_fundamental_div_mod_converse(j + p, w, v + 1, t);
        }
    }
}

/// Within the rounds of four, the vector after `4 * round` body vectors and
/// the three that follow go to the accumulators 0, 1, 2 and 3 in turn.
proof fn lemma_rounds(body: int, round: int)
    requires
        0 <= round < body / 4,
    ensures
        accumulator_of(4 * round, body) == 0,
        accumulator_of(4 * round + 1, body) == 1,
        accumulator_of(4 * round + 2, body) == 2,
        accumulator_of(4 * round + 3, body) == 3,
        4 * round + 4 <= body,
{
    lemma_fundamental_div_mod(body, 4);
    lemma_fundamental_div_mod_converse(4 * round, 4, round, 0);
    lemma_fundamental_div_mod_converse(4 * round + 1, 4, round, 1);
    lemma_fundamental_div_mod_converse(4 * round + 2, 4, round, 2);
    lemma_fundamental_div_mod_converse(4 * round + 3, 4, round, 3);
}

/// The body vectors that the rounds of four leave over, and the tail, go to
/// the first accumulator.
proof fn lemma_left(body: int, b: int)
    requires
        0 <= body,
        0 <= b <= body % 4,
    ensures
        accumulator_of(4 * (body / 4) + b, body) == 0,
        4 * (body / 4) + b <= body,
        b == body % 4 ==> 4 * (body / 4) + b == body,
{
    lemma_fundamental_div_mod(body, 4);
}

/// A vector that is not the last of `count` vectors ends where the next one
/// starts, before the end of them all.
proof fn lemma_room(v: int, count: int, w: int)
    requires
        0 <= v < count,
        0 <= w,
    ensures
        (v + 1) * w == v * w + w,
        v * w + w <= count * w,
        0 <= v * w,
{
    assert((v + 1) * w == v * w + w) by (nonlinear_arith);
    assert((v + 1) * w <= count * w) by (nonlinear_arith)
        requires
            v + 1 <= count,
            0 <= w,
    ;
    assert(0 <= v * w) by (nonlinear_arith)
        requires
            0 <= v,
            0 <= w,
    ;
}

/// Reduces a row whose entries lie side by side, lane by lane and with four
/// partial accumulators, in the cut that `shape` describes.
///
/// Returns the sum of the contributions of the entries that take part, and
/// how many they are.
pub fn reduce_row_contiguous<E: ComplexField, S: Statistic<E>, const W: usize>(
    stat: &S,
    row: &[E],
    nan: NanHandling,
    shape: &Shape,
) -> (r: (S::Acc, usize))
    requires
        shape.wf(),
        shape.width() == W,
    ensures
        r.0 == lane_sum(*stat, row@, nan, *shape),
        r.1 == count_valid(row@, nan, row@.len()),
{
    let len: usize = row.len();
    let p: usize = shape.offset();
    let ghost all = row@;
    let ghost wn = W as nat;
    let zero: S::Acc = S::Acc::zero();
    let mut sum0: Vec<S::Acc> = splat(zero, W);
    let mut sum1: Vec<S::Acc> = splat(zero, W);
    let mut sum2: Vec<S::Acc> = splat(zero, W);
    let mut sum3: Vec<S::Acc> = splat(zero, W);
    let mut count0: Vec<u8> = splat(0u8, W);
    let mut count1: Vec<u8> = splat(0u8, W);
    let mut count2: Vec<u8> = splat(0u8, W);
    let mut count3: Vec<u8> = splat(0u8, W);
    let mut total: usize = 0;

    let room: usize = (W - p) % W;
    let head_end: usize = if len < room {
        len
    } else {
        room
    };
    proof {
        lemma_lane_count_zero(count0@, wn);
        lemma_lane_count_zero(count1@, wn);
        lemma_lane_count_zero(count2@, wn);
        lemma_lane_count_zero(count3@, wn);
        lemma_count_bounded(all, nan, len as nat);
        lemma_count_bounded(all, nan, head_end as nat);
        lemma_head_len(*shape, len as int);
        lemma_head(*shape, len as int);
    }
    let head: &[E] = slice_subrange(row, 0, head_end);
    let rest: &[E] = slice_subrange(row, head_end, len);
    let (body, tail) = pulp::as_arrays::<W, E>(rest);
    let (rounds, left) = pulp::as_arrays::<4, [E; W]>(body);
    let nrounds: usize = rounds.len();
    let nleft: usize = left.len();
    let ghost nbody: int = body@.len() as int;
    proof {
        assert(nbody == body_len(*shape, len as int));
        lemma_fundamental_div_mod(rest@.len() as int, W as int);
        lemma_fundamental_div_mod(nbody, 4);
        assert((W as int) * nbody == nbody * (W as int)) by (nonlinear_arith);
    }

    take(
        stat,
        nan,
        shape,
        Ghost(0),
        Ghost(all),
        Ghost(0),
        &mut sum0,
        &mut count0,
        p,
        head,
    );
    proof {
        lemma_keep(sum1@, *stat, all, nan, *shape, 0, 1, p as int, 0, head_end as nat);
        lemma_keep(sum2@, *stat, all, nan, *shape, 0, 2, p as int, 0, head_end as nat);
        lemma_keep(sum3@, *stat, all, nan, *shape, 0, 3, p as int, 0, head_end as nat);
    }
    total = total + reduce(&count0);
    count0 = splat(0u8, W);

    // The number of body vectors taken in, and the column after them.
    let ghost mut v: int = 0;
    let ghost mut col: nat = head_end as nat;
    proof {
        assert(0 * (W as int) == 0);
    }

    let mut done: usize = 0;
    while done < nrounds
        invariant
            shape.wf(),
            shape.width() == W,
            wn == W,
            all == row@,
            len == all.len(),
            head_end == head_len(*shape, len as int),
            rest@ == all.subrange(head_end as int, len as int),
            body@.len() == rest@.len() / wn,
            forall|i: int, k: int|
                0 <= i < body@.len() && 0 <= k < W ==> #[trigger] body@[i]@[k] == rest@[i * W
                    + k],
            nbody == body@.len(),
            nbody == body_len(*shape, len as int),
            nbody * W <= rest@.len(),
            nrounds == rounds@.len(),
            nrounds == nbody / 4,
            forall|i: int, k: int|
                0 <= i < rounds@.len() && 0 <= k < 4 ==> #[trigger] rounds@[i]@[k] == body@[i * 4
                    + k],
            done <= nrounds,
            v == 4 * done,
            col == head_end + v * W,
            col <= len,
            holds(sum0@, *stat, all, nan, *shape, 0, col),
            holds(sum1@, *stat, all, nan, *shape, 1, col),
            holds(sum2@, *stat, all, nan, *shape, 2, col),
            holds(sum3@, *stat, all, nan, *shape, 3, col),
            count0@.len() == W,
            count1@.len() == W,
            count2@.len() == W,
            count3@.len() == W,
            forall|k: int| 0 <= k < W ==> count0@[k] == 0,
            forall|k: int| 0 <= k < W ==> count1@[k] == 0,
            forall|k: int| 0 <= k < W ==> count2@[k] == 0,
            forall|k: int| 0 <= k < W ==> count3@[k] == 0,
            nan == NanHandling::Ignore ==> total == count_valid(all, nan, col),
            nan == NanHandling::Propagate ==> total == 0,
        decreases nrounds - done,
    {
        let chunk: usize = if nrounds - done < FLUSH_INTERVAL {
            nrounds - done
        } else {
            FLUSH_INTERVAL
        };
        proof {
            lemma_lane_count_zero(count0@, wn);
            lemma_lane_count_zero(count1@, wn);
            lemma_lane_count_zero(count2@, wn);
            lemma_lane_count_zero(count3@, wn);
        }
        let mut g: usize = 0;
        while g < chunk
            invariant
                shape.wf(),
                shape.width() == W,
                wn == W,
                all == row@,
                len == all.len(),
                head_end == head_len(*shape, len as int),
                rest@ == all.subrange(head_end as int, len as int),
                body@.len() == rest@.len() / wn,
                forall|i: int, k: int|
                    0 <= i < body@.len() && 0 <= k < W ==> #[trigger] body@[i]@[k] == rest@[i * W
                        + k],
                nbody == body@.len(),
                nbody == body_len(*shape, len as int),
                nbody * W <= rest@.len(),
                nrounds == rounds@.len(),
                nrounds == nbody / 4,
                forall|i: int, k: int|
                    0 <= i < rounds@.len() && 0 <= k < 4 ==> #[trigger] rounds@[i]@[k]
                        == body@[i * 4 + k],
                done + chunk <= nrounds,
                chunk <= FLUSH_INTERVAL,
                g <= chunk,
                v == 4 * (done + g),
                col == head_end + v * W,
                col <= len,
                holds(sum0@, *stat, all, nan, *shape, 0, col),
                holds(sum1@, *stat, all, nan, *shape, 1, col),
                holds(sum2@, *stat, all, nan, *shape, 2, col),
                holds(sum3@, *stat, all, nan, *shape, 3, col),
                count0@.len() == W,
                count1@.len() == W,
                count2@.len() == W,
                count3@.len() == W,
                forall|k: int| 0 <= k < W ==> count0@[k] <= g,
                forall|k: int| 0 <= k < W ==> count1@[k] <= g,
                forall|k: int| 0 <= k < W ==> count2@[k] <= g,
                forall|k: int| 0 <= k < W ==> count3@[k] <= g,
                nan == NanHandling::Ignore ==> total + lane_count(count0@, wn) + lane_count(
                    count1@,
                    wn,
                ) + lane_count(count2@, wn) + lane_count(count3@, wn) == count_valid(
                    all,
                    nan,
                    col,
                ),
                nan == NanHandling::Propagate ==> total == 0 && lane_count(count0@, wn) == 0
                    && lane_count(count1@, wn) == 0 && lane_count(count2@, wn) == 0
                    && lane_count(count3@, wn) == 0,
            decreases chunk - g,
        {
            let round: &[[E; W]; 4] = &rounds[done + g];
            let ghost r: int = (done + g) as int;
            proof {
                lemma_rounds(nbody, r);
                assert(rounds@[r]@[0] == body@[r * 4 + 0]);
                assert(rounds@[r]@[1] == body@[r * 4 + 1]);
                assert(rounds@[r]@[2] == body@[r * 4 + 2]);
                assert(rounds@[r]@[3] == body@[r * 4 + 3]);
            }

            let vector0: &[E; W] = &round[0];
            proof {
                lemma_room(v, nbody, W as int);
                assert forall|t: int| 0 <= t < W implies #[trigger] vector0@[t] == all[col
                    + t] by {
                    assert(body@[v]@[t] == rest@[v * W + t]);
                }
                lemma_vector(*shape, len as int, col as int, v, 0, W as int);
            }
            take(
                stat,
                nan,
                shape,
                Ghost(0),
                Ghost(all),
                Ghost(col),
                &mut sum0,
                &mut count0,
                0,
                vector0.as_slice(),
            );
            proof {
                lemma_keep(sum1@, *stat, all, nan, *shape, 0, 1, 0, col, wn);
                lemma_keep(sum2@, *stat, all, nan, *shape, 0, 2, 0, col, wn);
                lemma_keep(sum3@, *stat, all, nan, *shape, 0, 3, 0, col, wn);
                v = v + 1;
                col = col + wn;
            }

            let vector1: &[E; W] = &round[1];
            proof {
                lemma_room(v, nbody, W as int);
                assert forall|t: int| 0 <= t < W implies #[trigger] vector1@[t] == all[col
                    + t] by {
                    assert(body@[v]@[t] == rest@[v * W + t]);
                }
                lemma_vector(*shape, len as int, col as int, v, 1, W as int);
            }
            take(
                stat,
                nan,
                shape,
                Ghost(1),
                Ghost(all),
                Ghost(col),
                &mut sum1,
                &mut count1,
                0,
                vector1.as_slice(),
            );
            proof {
                lemma_keep(sum0@, *stat, all, nan, *shape, 1, 0, 0, col, wn);
                lemma_keep(sum2@, *stat, all, nan, *shape, 1, 2, 0, col, wn);
                lemma_keep(sum3@, *stat, all, nan, *shape, 1, 3, 0, col, wn);
                v = v + 1;
                col = col + wn;
            }

            let vector2: &[E; W] = &round[2];
            proof {
                lemma_room(v, nbody, W as int);
                assert forall|t: int| 0 <= t < W implies #[trigger] vector2@[t] == all[col
                    + t] by {
                    assert(body@[v]@[t] == rest@[v * W + t]);
                }
                lemma_vector(*shape, len as int, col as int, v, 2, W as int);
            }
            take(
                stat,
                nan,
                shape,
                Ghost(2),
                Ghost(all),
                Ghost(col),
                &mut sum2,
                &mut count2,
                0,
                vector2.as_slice(),
            );
            proof {
                lemma_keep(sum0@, *stat, all, nan, *shape, 2, 0, 0, col, wn);
                lemma_keep(sum1@, *stat, all, nan, *shape, 2, 1, 0, col, wn);
                lemma_keep(sum3@, *stat, all, nan, *shape, 2, 3, 0, col, wn);
                v = v + 1;
                col = col + wn;
            }

            let vector3: &[E; W] = &round[3];
            proof {
                lemma_room(v, nbody, W as int);
                assert forall|t: int| 0 <= t < W implies #[trigger] vector3@[t] == all[col
                    + t] by {
                    assert(body@[v]@[t] == rest@[v * W + t]);
                }
                lemma_vector(*shape, len as int, col as int, v, 3, W as int);
            }
            take(
                stat,
                nan,
                shape,
                Ghost(3),
                Ghost(all),
                Ghost(col),
                &mut sum3,
                &mut count3,
                0,
                vector3.as_slice(),
            );
            proof {
                lemma_keep(sum0@, *stat, all, nan, *shape, 3, 0, 0, col, wn);
                lemma_keep(sum1@, *stat, all, nan, *shape, 3, 1, 0, col, wn);
                lemma_keep(sum2@, *stat, all, nan, *shape, 3, 2, 0, col, wn);
                v = v + 1;
                col = col + wn;
            }
            g = g + 1;
        }
        index_add(&mut count0, &count1);
        index_add(&mut count2, &count3);
        index_add(&mut count0, &count2);
        proof {
            lemma_count_bounded(all, nan, col);
        }
        total = total + reduce(&count0);
        count0 = splat(0u8, W);
        count1 = splat(0u8, W);
        count2 = splat(0u8, W);
        count3 = splat(0u8, W);
        done = done + chunk;
    }

    proof {
        lemma_lane_count_zero(count0@, wn);
    }
    let mut b: usize = 0;
    while b < nleft
        invariant
            shape.wf(),
            shape.width() == W,
            wn == W,
            all == row@,
            len == all.len(),
            head_end == head_len(*shape, len as int),
            rest@ == all.subrange(head_end as int, len as int),
            forall|i: int, k: int|
                0 <= i < body@.len() && 0 <= k < W ==> #[trigger] body@[i]@[k] == rest@[i * W
                    + k],
            nbody == body@.len(),
            nbody == body_len(*shape, len as int),
            nbody * W <= rest@.len(),
            nleft == left@.len(),
            nleft == nbody % 4,
            forall|k: int|
                0 <= k < left@.len() ==> #[trigger] left@[k] == body@[(body@.len() / 4) * 4 + k],
            b <= nleft,
            v == 4 * (nbody / 4) + b,
            col == head_end + v * W,
            col <= len,
            holds(sum0@, *stat, all, nan, *shape, 0, col),
            holds(sum1@, *stat, all, nan, *shape, 1, col),
            holds(sum2@, *stat, all, nan, *shape, 2, col),
            holds(sum3@, *stat, all, nan, *shape, 3, col),
            count0@.len() == W,
            forall|k: int| 0 <= k < W ==> count0@[k] <= b,
            nan == NanHandling::Ignore ==> total + lane_count(count0@, wn) == count_valid(
                all,
                nan,
                col,
            ),
            nan == NanHandling::Propagate ==> total == 0 && lane_count(count0@, wn) == 0,
        decreases nleft - b,
    {
        let vector: &[E; W] = &left[b];
        proof {
            lemma_left(nbody, b as int);
            lemma_room(v, nbody, W as int);
            assert(left@[b as int] == body@[v]);
            assert forall|t: int| 0 <= t < W implies #[trigger] vector@[t] == all[col + t] by {
                assert(body@[v]@[t] == rest@[v * W + t]);
            }
            lemma_vector(*shape, len as int, col as int, v, 0, W as int);
        }
        take(
            stat,
            nan,
            shape,
            Ghost(0),
            Ghost(all),
            Ghost(col),
            &mut sum0,
            &mut count0,
            0,
            vector.as_slice(),
        );
        proof {
            lemma_keep(sum1@, *stat, all, nan, *shape, 0, 1, 0, col, wn);
            lemma_keep(sum2@, *stat, all, nan, *shape, 0, 2, 0, col, wn);
            lemma_keep(sum3@, *stat, all, nan, *shape, 0, 3, 0, col, wn);
            v = v + 1;
            col = col + wn;
        }
        b = b + 1;
    }

    proof {
        lemma_left(nbody, nleft as int);
        assert(v == nbody);
        assert(col + tail@.len() == len);
        assert forall|t: int| 0 <= t < tail@.len() implies #[trigger] tail@[t] == all[col + t] by {
            assert(tail@[t] == rest@[(rest@.len() / wn) * W + t]);
        }
        lemma_vector(*shape, len as int, col as int, v, 0, tail@.len() as int);
        lemma_count_bounded(all, nan, len as nat);
    }
    take(
        stat,
        nan,
        shape,
        Ghost(0),
        Ghost(all),
        Ghost(col),
        &mut sum0,
        &mut count0,
        0,
        tail,
    );
    proof {
        lemma_keep(sum1@, *stat, all, nan, *shape, 0, 1, 0, col, tail@.len());
        lemma_keep(sum2@, *stat, all, nan, *shape, 0, 2, 0, col, tail@.len());
        lemma_keep(sum3@, *stat, all, nan, *shape, 0, 3, 0, col, tail@.len());
    }
    total = total + reduce(&count0);

    add_lanes(&mut sum0, &sum1);
    add_lanes(&mut sum2, &sum3);
    add_lanes(&mut sum0, &sum2);
    let settled: Vec<S::Acc> = rotate_left(&sum0, p);
    proof {
        assert(settled@ =~= settled_lanes(*stat, all, nan, *shape));
    }
    let sum: S::Acc = reduce_add(&settled);
    let count: usize = match nan {
        NanHandling::Propagate => len,
        NanHandling::Ignore => total,
    };
    (sum, count)
}

/// Reduces row `i` of `mat` one entry at a time, from its first column to its
/// last, whatever the strides of the view.
///
/// Returns the sum of the contributions of the entries that take part, and
/// how many they are.
pub fn reduce_row_strided<E: ComplexField, S: Statistic<E>>(
    stat: &S,
    mat: &MatRef<'_, E>,
    i: usize,
    nan: NanHandling,
) -> (r: (S::Acc, usize))
    requires
        mat.wf(),
        i < mat.rows(),
    ensures
        r.0 == running_sum(*stat, mat.row(i as int), nan, mat.cols()),
        r.1 == count_valid(mat.row(i as int), nan, mat.cols()),
{
    let n: usize = mat.ncols();
    let ghost row = mat.row(i as int);
    let mut sum: S::Acc = S::Acc::zero();
    let mut count: usize = 0;
    let mut j: usize = 0;
    match nan {
        NanHandling::Propagate => {
            while j < n
                invariant
                    mat.wf(),
                    i < mat.rows(),
                    n == mat.cols(),
                    row == mat.row(i as int),
                    nan == NanHandling::Propagate,
                    j <= n,
                    sum == running_sum(*stat, row, nan, j as nat),
                decreases n - j,
            {
                let x: E = mat.read(i, j);
                proof {
                    assert(row[j as int] == x);
                }
                sum = sum.plus(stat.term(x));
                j = j + 1;
            }
            proof {
                lemma_count_bounded(row, nan, n as nat);
            }
            count = n;
        },
        NanHandling::Ignore => {
            while j < n
                invariant
                    mat.wf(),
                    i < mat.rows(),
                    n == mat.cols(),
                    row == mat.row(i as int),
                    nan == NanHandling::Ignore,
                    j <= n,
                    sum == running_sum(*stat, row, nan, j as nat),
                    count == count_valid(row, nan, j as nat),
                decreases n - j,
            {
                let x: E = mat.read(i, j);
                proof {
                    lemma_count_bounded(row, nan, j as nat);
                    assert(row[j as int] == x);
                }
                if !x.is_nan() {
                    sum = sum.plus(stat.term(x));
                    count = count + 1;
                }
                j = j + 1;
            }
        },
    }
    (sum, count)
}

} // verus!
