//! Which partial accumulator, and which of its lanes, every entry of a row is
//! added to.
//!
//! A row is cut into vectors of `lanes` consecutive entries. The cut is
//! shifted by `offset` places: where the shift is not zero, the first vector
//! (the head) holds only the entries that come before the first cut, in its
//! upper lanes. The last one (the tail) holds the entries after the last
//! cut, in its lower lanes. The vectors in between (the body) are full.
//!
//! Four accumulators take the vectors in. The head and the tail go to the
//! first accumulator. The body is taken four vectors at a time, one vector to
//! each accumulator; the up to three body vectors that are left over go to
//! the first accumulator.
use crate::lanes::fold_lanes;
use crate::scalar::{Additive, ComplexField};
use crate::sums::{counted, NanHandling, Statistic};
use vstd::prelude::*;

verus! {

/// The largest number of lanes of a vector.
pub const MAX_LANES: usize = 64;

/// The number of lanes into which the rows of a matrix are cut.
pub const LANES: usize = 4;

/// After how many rounds of four body vectors the lane counters are emptied
/// into the running total.
///
/// A lane counter is one byte wide and is raised at most once in a round.
/// Before the four counters of a lane are emptied they are added up in a
/// byte, so four times this number has to fit in one: 252 is at most 255.
pub const FLUSH_INTERVAL: usize = 63;

/// How a row is cut into vectors.
#[derive(Clone, Copy, Debug)]
pub struct Shape {
    lanes: usize,
    offset: usize,
}

impl Shape {
    /// The number of lanes of a vector.
    pub closed spec fn width(&self) -> int {
        self.lanes as int
    }

    /// The number of lanes of the head that lie before the first entry.
    pub closed spec fn shift(&self) -> int {
        self.offset as int
    }

    /// The validity of the cut: at least one lane, at most `MAX_LANES`, and
    /// a shift of less than one vector.
    pub open spec fn wf(&self) -> bool {
        1 <= self.width() <= MAX_LANES && 0 <= self.shift() < self.width()
    }

    /// The cut into vectors of `lanes` lanes, shifted by `offset`; `None`
    /// unless `1 <= lanes <= MAX_LANES` and `offset < lanes`.
    pub fn new(lanes: usize, offset: usize) -> (r: Option<Shape>)
        ensures
            r.is_some() <==> 1 <= lanes <= MAX_LANES && offset < lanes,
            r matches Some(s) ==> s.wf() && s.width() == lanes && s.shift() == offset,
    {
        if 1 <= lanes && lanes <= MAX_LANES && offset < lanes {
            Some(Shape { lanes, offset })
        } else {
            None
        }
    }

    /// The cut into vectors of `lanes` lanes that falls on the positions of
    /// the slice that are multiples of `lanes`, for a row whose first entry
    /// is at position `start`.
    pub closed spec fn cut(lanes: usize, start: usize) -> Shape {
        Shape { lanes, offset: (start as int % lanes as int) as usize }
    }

    /// What the cut that falls on the multiples of `lanes` is made of.
    pub proof fn lemma_cut(lanes: usize, start: usize)
        requires
            1 <= lanes <= MAX_LANES,
        ensures
            Self::cut(lanes, start).wf(),
            Self::cut(lanes, start).width() == lanes,
            Self::cut(lanes, start).shift() == start as int % (lanes as int),
    {
    }

    /// The cut into vectors of `lanes` lanes that falls on the positions of
    /// the slice that are multiples of `lanes`, for a row whose first entry
    /// is at position `start`; `None` unless `1 <= lanes <= MAX_LANES`.
    pub fn aligned(lanes: usize, start: usize) -> (r: Option<Shape>)
        ensures
            r.is_some() <==> 1 <= lanes <= MAX_LANES,
            r matches Some(s) ==> s.wf() && s == Self::cut(lanes, start),
    {
        if 1 <= lanes && lanes <= MAX_LANES {
            Some(Shape { lanes, offset: start % lanes })
        } else {
            None
        }
    }

    /// The cut of the rows of a matrix whose first entry is at position
    /// `start` of its slice: into `LANES` lanes, and so that in the first row
    /// the cuts fall on the multiples of `LANES`.
    pub fn for_rows(start: usize) -> (r: Shape)
        ensures
            r.wf(),
            r == Self::cut(LANES, start),
    {
        Shape { lanes: LANES, offset: start % LANES }
    }

    /// The number of lanes of a vector.
    pub fn lanes(&self) -> (r: usize)
        ensures
            r == self.width(),
    {
        self.lanes
    }

    /// The number of lanes of the head that lie before the first entry.
    pub fn offset(&self) -> (r: usize)
        ensures
            r == self.shift(),
    {
        self.offset
    }
}

/// The number of entries of a row of `len` entries that come before the
/// first cut.
pub open spec fn head_len(shape: Shape, len: int) -> int {
    let room = (shape.width() - shape.shift()) % shape.width();
    if len < room {
        len
    } else {
        room
    }
}

/// The number of full vectors between the head and the tail of a row of
/// `len` entries.
pub open spec fn body_len(shape: Shape, len: int) -> int {
    (len - head_len(shape, len)) / shape.width()
}

/// The lane of its vector in which column `j` lies.
pub open spec fn lane_of(shape: Shape, j: int) -> int {
    (j + shape.shift()) % shape.width()
}

/// The accumulator, 0 to 3, that takes in the vector after `b` vectors of a
/// body of `body` vectors. The tail comes after all of them.
pub open spec fn accumulator_of(b: int, body: int) -> int {
    if 0 <= b < 4 * (body / 4) {
        b % 4
    } else {
        0
    }
}

/// The accumulator, 0 to 3, that takes in column `j` of a row of `len`
/// entries.
pub open spec fn accumulator_at(shape: Shape, len: int, j: int) -> int {
    let head = head_len(shape, len);
    if j < head {
        0
    } else {
        accumulator_of((j - head) / shape.width(), body_len(shape, len))
    }
}

/// Whether column `j` of a row of `len` entries is added to lane `k` of
/// accumulator `a`.
pub open spec fn goes_to(shape: Shape, len: int, j: int, a: int, k: int) -> bool {
    accumulator_at(shape, len, j) == a && lane_of(shape, j) == k
}

/// What lane `k` of accumulator `a` holds once the first `n` entries of `row`
/// have been taken in: the sum, from left to right and starting from zero, of
/// the contributions of the entries that are added to it and take part under
/// policy `nan`.
pub open spec fn cell_sum<E: ComplexField, S: Statistic<E>>(
    stat: S,
    row: Seq<E>,
    nan: NanHandling,
    shape: Shape,
    a: int,
    k: int,
    n: nat,
) -> S::Acc
    decreases n,
{
    if n == 0 {
        S::Acc::zero_spec()
    } else {
        let before = cell_sum(stat, row, nan, shape, a, k, (n - 1) as nat);
        if counted(row[n - 1], nan) && goes_to(shape, row.len() as int, n - 1, a, k) {
            before.plus_spec(stat.term_spec(row[n - 1]))
        } else {
            before
        }
    }
}

/// What lane `k` holds once the four accumulators have been combined: the
/// first plus the second, added to the third plus the fourth.
pub open spec fn lane_total<E: ComplexField, S: Statistic<E>>(
    stat: S,
    row: Seq<E>,
    nan: NanHandling,
    shape: Shape,
    k: int,
) -> S::Acc {
    let n = row.len();
    cell_sum(stat, row, nan, shape, 0, k, n).plus_spec(
        cell_sum(stat, row, nan, shape, 1, k, n),
    ).plus_spec(
        cell_sum(stat, row, nan, shape, 2, k, n).plus_spec(
            cell_sum(stat, row, nan, shape, 3, k, n),
        ),
    )
}

/// The combined lanes, moved back by the shift of the cut, so that the lane
/// of the row's first entry comes first.
pub open spec fn settled_lanes<E: ComplexField, S: Statistic<E>>(
    stat: S,
    row: Seq<E>,
    nan: NanHandling,
    shape: Shape,
) -> Seq<S::Acc> {
    Seq::new(
        shape.width() as nat,
        |r: int| lane_total(stat, row, nan, shape, (r + shape.shift()) % shape.width()),
    )
}

/// The sum to which a row is reduced lane by lane: the combined lanes, added
/// up from the lane of the row's first entry onwards.
pub open spec fn lane_sum<E: ComplexField, S: Statistic<E>>(
    stat: S,
    row: Seq<E>,
    nan: NanHandling,
    shape: Shape,
) -> S::Acc {
    fold_lanes(settled_lanes(stat, row, nan, shape), shape.width() as nat)
}

} // verus!
