//! Borrowed, strided views of a matrix.
use vstd::prelude::*;
use vstd::slice::slice_subrange;

verus! {

/// An immutable rectangular view over entries kept in a slice.
///
/// Entry `(i, j)` lives at position `start + i * row_stride + j * col_stride`
/// of the slice. A stride may be negative, which walks the slice backwards.
/// The view does not own the entries.
pub struct MatRef<'a, E> {
    data: &'a [E],
    start: usize,
    nrows: usize,
    ncols: usize,
    row_stride: isize,
    col_stride: isize,
}

/// The position in the slice of entry `(i, j)`.
pub open spec fn position(start: int, row_stride: int, col_stride: int, i: int, j: int) -> int {
    start + i * row_stride + j * col_stride
}

/// Whether every entry of an `nrows` by `ncols` view with this geometry lies
/// inside a slice of `len` entries.
pub open spec fn fits(
    len: int,
    nrows: int,
    ncols: int,
    start: int,
    row_stride: int,
    col_stride: int,
) -> bool {
    forall|i: int, j: int|
        0 <= i < nrows && 0 <= j < ncols ==> 0 <= #[trigger] position(
            start,
            row_stride,
            col_stride,
            i,
            j,
        ) < len
}

/// Whether both strides can be negated without leaving the machine's range.
pub open spec fn strides_ok(row_stride: isize, col_stride: isize) -> bool {
    row_stride > isize::MIN && col_stride > isize::MIN
}

/// A multiple `i * stride` with `0 <= i <= last` lies between zero and
/// `last * stride`.
proof fn lemma_between(i: int, last: int, stride: int)
    requires
        0 <= i <= last,
    ensures
        stride >= 0 ==> 0 <= i * stride <= last * stride,
        stride <= 0 ==> last * stride <= i * stride <= 0,
{
    assert(stride >= 0 ==> 0 <= i * stride <= last * stride) by (nonlinear_arith)
        requires
            0 <= i <= last,
    ;
    assert(stride <= 0 ==> last * stride <= i * stride <= 0) by (nonlinear_arith)
        requires
            0 <= i <= last,
    ;
}

/// The product of a machine-sized count and a machine-sized stride fits in
/// 128 bits.
proof fn lemma_product_fits(count: int, stride: int)
    requires
        0 <= count < 0x1_0000_0000_0000_0000,
        -0x8000_0000_0000_0000 <= stride < 0x8000_0000_0000_0000,
    ensures
        -0x8000_0000_0000_0000_0000_0000_0000_0000 < count * stride
            < 0x7fff_ffff_ffff_ffff_ffff_ffff_ffff_ffff,
{
    assert(-0x8000_0000_0000_0000_0000_0000_0000_0000 < count * stride
        < 0x7fff_ffff_ffff_ffff_ffff_ffff_ffff_ffff) by (nonlinear_arith)
        requires
            0 <= count < 0x1_0000_0000_0000_0000,
            -0x8000_0000_0000_0000 <= stride < 0x8000_0000_0000_0000,
    ;
}

/// The smaller of zero and `extent`.
pub open spec fn low_end(extent: int) -> int {
    if extent < 0 {
        extent
    } else {
        0
    }
}

/// The larger of zero and `extent`.
pub open spec fn high_end(extent: int) -> int {
    if extent > 0 {
        extent
    } else {
        0
    }
}

/// A view with at least one entry fits exactly when its two extreme
/// positions do.
proof fn lemma_fits_by_corners(
    len: int,
    nrows: int,
    ncols: int,
    start: int,
    row_stride: int,
    col_stride: int,
)
    requires
        nrows > 0,
        ncols > 0,
    ensures
        fits(len, nrows, ncols, start, row_stride, col_stride) <==> (0 <= start + low_end(
            (nrows - 1) * row_stride,
        ) + low_end((ncols - 1) * col_stride) && start + high_end((nrows - 1) * row_stride)
            + high_end((ncols - 1) * col_stride) < len),
{
    let er = (nrows - 1) * row_stride;
    let ec = (ncols - 1) * col_stride;
    let lo = start + low_end(er) + low_end(ec);
    let hi = start + high_end(er) + high_end(ec);
    if 0 <= lo && hi < len {
        assert forall|i: int, j: int| 0 <= i < nrows && 0 <= j < ncols implies 0
            <= #[trigger] position(start, row_stride, col_stride, i, j) < len by {
            lemma_between(i, nrows - 1, row_stride);
            lemma_between(j, ncols - 1, col_stride);
        }
    }
    if fits(len, nrows, ncols, start, row_stride, col_stride) {
        let i_lo = if row_stride < 0 {
            nrows - 1
        } else {
            0
        };
        let i_hi = if row_stride < 0 {
            0
        } else {
            nrows - 1
        };
        let j_lo = if col_stride < 0 {
            ncols - 1
        } else {
            0
        };
        let j_hi = if col_stride < 0 {
            0
        } else {
            ncols - 1
        };
        lemma_between(nrows - 1, nrows - 1, row_stride);
        lemma_between(ncols - 1, ncols - 1, col_stride);
        assert(0 * row_stride == 0);
        assert(0 * col_stride == 0);
        assert(position(start, row_stride, col_stride, i_lo, j_lo) == lo);
        assert(position(start, row_stride, col_stride, i_hi, j_hi) == hi);
    }
}

impl<'a, E: Copy> MatRef<'a, E> {
    /// The validity of the view: every entry lies inside the slice.
    pub closed spec fn wf(&self) -> bool {
        &&& fits(
            self.data@.len() as int,
            self.nrows as int,
            self.ncols as int,
            self.start as int,
            self.row_stride as int,
            self.col_stride as int,
        )
        &&& strides_ok(self.row_stride, self.col_stride)
        &&& self.data@.len() <= usize::MAX
    }

    /// The number of rows.
    pub closed spec fn rows(&self) -> nat {
        self.nrows as nat
    }

    /// The number of columns.
    pub closed spec fn cols(&self) -> nat {
        self.ncols as nat
    }

    /// The entries of the slice behind the view.
    pub closed spec fn buffer(&self) -> Seq<E> {
        self.data@
    }

    /// The position in the slice of the view's entry `(0, 0)`.
    pub closed spec fn origin(&self) -> int {
        self.start as int
    }

    /// The distance in the slice between an entry and the one below it.
    pub closed spec fn row_step(&self) -> int {
        self.row_stride as int
    }

    /// The distance in the slice between an entry and the one to its right.
    pub closed spec fn col_step(&self) -> int {
        self.col_stride as int
    }

    /// The entry in row `i` and column `j`.
    pub open spec fn at(&self, i: int, j: int) -> E {
        self.buffer()[position(self.origin(), self.row_step(), self.col_step(), i, j)]
    }

    /// Row `i`, from its first column to its last.
    pub open spec fn row(&self, i: int) -> Seq<E> {
        Seq::new(self.cols(), |j: int| self.at(i, j))
    }

    /// Column `j`, from its first row to its last.
    pub open spec fn col(&self, j: int) -> Seq<E> {
        Seq::new(self.rows(), |i: int| self.at(i, j))
    }

    /// The numbers of rows and columns are machine numbers.
    pub proof fn lemma_size_fits(&self)
        ensures
            self.rows() <= usize::MAX,
            self.cols() <= usize::MAX,
    {
    }

}

impl<'a, E: Copy> MatRef<'a, E> {
    /// Makes a view of `nrows` by `ncols` entries of `data`, or `None` where
    /// some entry would fall outside `data` or a stride is the most negative
    /// number of its type.
    pub fn new(
        data: &'a [E],
        nrows: usize,
        ncols: usize,
        start: usize,
        row_stride: isize,
        col_stride: isize,
    ) -> (r: Option<MatRef<'a, E>>)
        ensures
            r.is_some() <==> fits(
                data@.len() as int,
                nrows as int,
                ncols as int,
                start as int,
                row_stride as int,
                col_stride as int,
            ) && strides_ok(row_stride, col_stride),
            r matches Some(m) ==> m.wf() && m.rows() == nrows && m.cols() == ncols && m.buffer()
                == data@ && m.origin() == start && m.row_step() == row_stride && m.col_step()
                == col_stride,
    {
        if row_stride == isize::MIN || col_stride == isize::MIN {
            return None;
        }
        let view = MatRef { data, start, nrows, ncols, row_stride, col_stride };
        let len: i128 = data.len() as i128;
        if nrows == 0 || ncols == 0 {
            return Some(view);
        }
        let last_row: i128 = (nrows - 1) as i128;
        let last_col: i128 = (ncols - 1) as i128;
        let rs: i128 = row_stride as i128;
        let cs: i128 = col_stride as i128;
        proof {
            lemma_fits_by_corners(
                len as int,
                nrows as int,
                ncols as int,
                start as int,
                rs as int,
                cs as int,
            );
            lemma_product_fits(last_row as int, rs as int);
            lemma_product_fits(last_col as int, cs as int);
        }
        let row_extent: i128 = last_row * rs;
        let col_extent: i128 = last_col * cs;
        if row_extent >= len || row_extent <= -len || col_extent >= len || col_extent <= -len {
            return None;
        }
        let row_low: i128 = if row_extent < 0 {
            row_extent
        } else {
            0
        };
        let row_high: i128 = if row_extent > 0 {
            row_extent
        } else {
            0
        };
        let col_low: i128 = if col_extent < 0 {
            col_extent
        } else {
            0
        };
        let col_high: i128 = if col_extent > 0 {
            col_extent
        } else {
            0
        };
        let lowest: i128 = start as i128 + row_low + col_low;
        let highest: i128 = start as i128 + row_high + col_high;
        if lowest < 0 || highest >= len {
            return None;
        }
        Some(view)
    }

    /// The number of rows.
    pub fn nrows(&self) -> (r: usize)
        ensures
            r == self.rows(),
    {
        self.nrows
    }

    /// The number of columns.
    pub fn ncols(&self) -> (r: usize)
        ensures
            r == self.cols(),
    {
        self.ncols
    }

    /// The distance in the slice between an entry and the one below it.
    pub fn row_stride(&self) -> (r: isize)
        ensures
            r == self.row_step(),
    {
        self.row_stride
    }

    /// The distance in the slice between an entry and the one to its right.
    pub fn col_stride(&self) -> (r: isize)
        ensures
            r == self.col_step(),
    {
        self.col_stride
    }

    /// The position in the slice of the view's entry `(0, 0)`.
    pub fn start(&self) -> (r: usize)
        ensures
            r == self.origin(),
    {
        self.start
    }

    /// Reads the entry in row `i` and column `j`.
    pub fn read(&self, i: usize, j: usize) -> (r: E)
        requires
            self.wf(),
            i < self.rows(),
            j < self.cols(),
        ensures
            r == self.at(i as int, j as int),
    {
        let rs: i128 = self.row_stride as i128;
        let cs: i128 = self.col_stride as i128;
        let down: i128 = i as i128;
        let right: i128 = j as i128;
        let len: usize = self.data.len();
        proof {
            lemma_product_fits(down as int, rs as int);
            lemma_product_fits(right as int, cs as int);
            let first = position(
                self.start as int,
                self.row_stride as int,
                self.col_stride as int,
                i as int,
                0,
            );
            let here = position(
                self.start as int,
                self.row_stride as int,
                self.col_stride as int,
                i as int,
                j as int,
            );
            assert(0 <= first < self.data@.len());
            assert(0 <= here < self.data@.len());
            assert(0 * (self.col_stride as int) == 0);
            assert(first == self.start + down * rs);
            assert(here == self.start + down * rs + right * cs);
        }
        let in_row: i128 = self.start as i128 + down * rs;
        let index: i128 = in_row + right * cs;
        self.data[index as usize]
    }

    /// Row `i` as a slice, in a view whose rows lie side by side in the
    /// slice behind it.
    pub fn row_slice(&self, i: usize) -> (r: &'a [E])
        requires
            self.wf(),
            i < self.rows(),
            self.col_step() == 1,
        ensures
            r@ == self.row(i as int),
    {
        if self.ncols == 0 {
            let nothing: &'a [E] = slice_subrange(self.data, 0, 0);
            proof {
                assert(nothing@ =~= self.row(i as int));
            }
            return nothing;
        }
        let rs: i128 = self.row_stride as i128;
        let down: i128 = i as i128;
        let len: usize = self.data.len();
        proof {
            lemma_product_fits(down as int, rs as int);
            let first = position(
                self.start as int,
                self.row_stride as int,
                self.col_stride as int,
                i as int,
                0,
            );
            let last = position(
                self.start as int,
                self.row_stride as int,
                self.col_stride as int,
                i as int,
                self.ncols - 1,
            );
            assert(0 <= first < self.data@.len());
            assert(0 <= last < self.data@.len());
            assert(0 * (self.col_stride as int) == 0);
            assert(first == self.start + down * rs);
            assert(last == first + (self.ncols - 1));
        }
        let from: i128 = self.start as i128 + down * rs;
        let to: i128 = from + self.ncols as i128;
        let row: &'a [E] = slice_subrange(self.data, from as usize, to as usize);
        proof {
            assert forall|j: int| 0 <= j < self.ncols implies row@[j] == self.row(i as int)[j] by {
                assert(position(
                    self.start as int,
                    self.row_stride as int,
                    self.col_stride as int,
                    i as int,
                    j,
                ) == from + j);
            }
            assert(row@ =~= self.row(i as int));
        }
        row
    }

    /// The same entries with rows and columns exchanged: a second view of the
    /// same slice, with the roles of the two strides swapped.
    pub closed spec fn transposed(&self) -> MatRef<'a, E> {
        MatRef {
            data: self.data,
            start: self.start,
            nrows: self.ncols,
            ncols: self.nrows,
            row_stride: self.col_stride,
            col_stride: self.row_stride,
        }
    }

    /// The same entries with the order of the columns reversed: a second view
    /// of the same slice, which starts at the last column and walks back.
    pub closed spec fn cols_reversed(&self) -> MatRef<'a, E> {
        MatRef {
            data: self.data,
            start: if self.nrows == 0 || self.ncols == 0 {
                self.start
            } else {
                (self.start + (self.ncols - 1) * self.col_stride) as usize
            },
            nrows: self.nrows,
            ncols: self.ncols,
            row_stride: self.row_stride,
            col_stride: (-self.col_stride) as isize,
        }
    }

    /// What the transposed view holds.
    pub proof fn lemma_transposed(&self)
        requires
            self.wf(),
        ensures
            self.transposed().wf(),
            self.transposed().rows() == self.cols(),
            self.transposed().cols() == self.rows(),
            self.transposed().buffer() == self.buffer(),
            self.transposed().origin() == self.origin(),
            self.transposed().row_step() == self.col_step(),
            self.transposed().col_step() == self.row_step(),
            self.transposed().transposed() == *self,
            forall|i: int, j: int| #[trigger]
                self.transposed().at(i, j) == self.at(j, i),
    {
        let t = self.transposed();
        assert forall|i: int, j: int| 0 <= i < t.nrows && 0 <= j < t.ncols implies 0
            <= #[trigger] position(
            t.start as int,
            t.row_stride as int,
            t.col_stride as int,
            i,
            j,
        ) < t.data@.len() by {
            assert(position(t.start as int, t.row_stride as int, t.col_stride as int, i, j)
                == position(
                self.start as int,
                self.row_stride as int,
                self.col_stride as int,
                j,
                i,
            ));
        }
    }

    /// What the view with reversed columns holds.
    pub proof fn lemma_cols_reversed(&self)
        requires
            self.wf(),
        ensures
            self.cols_reversed().wf(),
            self.cols_reversed().rows() == self.rows(),
            self.cols_reversed().cols() == self.cols(),
            self.cols_reversed().buffer() == self.buffer(),
            self.cols_reversed().row_step() == self.row_step(),
            self.cols_reversed().col_step() == -self.col_step(),
            self.cols_reversed().origin() == if self.rows() == 0 || self.cols() == 0 {
                self.origin()
            } else {
                self.origin() + (self.cols() - 1) * self.col_step()
            },
            forall|i: int, j: int|
                0 <= i < self.rows() && 0 <= j < self.cols() ==> #[trigger] self.cols_reversed().at(
                    i,
                    j,
                ) == self.at(i, self.cols() - 1 - j),
    {
        let r = self.cols_reversed();
        let s = self.start as int;
        let rs = self.row_stride as int;
        let cs = self.col_stride as int;
        if self.nrows > 0 && self.ncols > 0 {
            let last = self.ncols - 1;
            assert(0 * rs == 0);
            assert(0 <= position(s, rs, cs, 0, last) < self.data@.len());
            assert(r.start == s + last * cs);
            assert forall|i: int, j: int| 0 <= i < r.nrows && 0 <= j < r.ncols implies position(
                r.start as int,
                r.row_stride as int,
                r.col_stride as int,
                i,
                j,
            ) == position(s, rs, cs, i, last - j) by {
                assert(last * cs + j * (-cs) == (last - j) * cs) by (nonlinear_arith);
            }
            assert forall|i: int, j: int| 0 <= i < r.nrows && 0 <= j < r.ncols implies 0
                <= #[trigger] position(
                r.start as int,
                r.row_stride as int,
                r.col_stride as int,
                i,
                j,
            ) < r.data@.len() by {
                assert(0 <= position(s, rs, cs, i, last - j) < self.data@.len());
            }
        }
    }

    /// The view in the orientation in which its rows are walked: with the
    /// columns reversed where the column stride is negative, so that the walk
    /// goes forward through the slice; unchanged otherwise.
    pub open spec fn normalized(&self) -> MatRef<'a, E> {
        if self.col_step() < 0 {
            self.cols_reversed()
        } else {
            *self
        }
    }

    /// Brings the view into the orientation in which its rows are walked.
    pub fn normalize(&self) -> (r: MatRef<'a, E>)
        requires
            self.wf(),
        ensures
            r == self.normalized(),
            r.wf(),
            r.rows() == self.rows(),
            r.cols() == self.cols(),
            r.col_step() >= 0,
    {
        proof {
            self.lemma_cols_reversed();
        }
        if self.col_stride < 0 {
            self.reverse_cols()
        } else {
            MatRef {
                data: self.data,
                start: self.start,
                nrows: self.nrows,
                ncols: self.ncols,
                row_stride: self.row_stride,
                col_stride: self.col_stride,
            }
        }
    }

    /// Exchanges rows and columns without moving an entry.
    pub fn transpose(&self) -> (r: MatRef<'a, E>)
        requires
            self.wf(),
        ensures
            r == self.transposed(),
            r.wf(),
    {
        proof {
            self.lemma_transposed();
        }
        MatRef {
            data: self.data,
            start: self.start,
            nrows: self.ncols,
            ncols: self.nrows,
            row_stride: self.col_stride,
            col_stride: self.row_stride,
        }
    }

    /// Reverses the order of the columns without moving an entry.
    pub fn reverse_cols(&self) -> (r: MatRef<'a, E>)
        requires
            self.wf(),
        ensures
            r == self.cols_reversed(),
            r.wf(),
    {
        proof {
            self.lemma_cols_reversed();
        }
        let start: usize = if self.nrows == 0 || self.ncols == 0 {
            self.start
        } else {
            let len: usize = self.data.len();
            let last: i128 = (self.ncols - 1) as i128;
            let cs: i128 = self.col_stride as i128;
            proof {
                lemma_product_fits(last as int, cs as int);
                assert(0 * (self.row_stride as int) == 0);
                assert(0 <= position(
                    self.start as int,
                    self.row_stride as int,
                    self.col_stride as int,
                    0,
                    last as int,
                ) < self.data@.len());
            }
            let moved: i128 = self.start as i128 + last * cs;
            moved as usize
        };
        MatRef {
            data: self.data,
            start,
            nrows: self.nrows,
            ncols: self.ncols,
            row_stride: self.row_stride,
            col_stride: -self.col_stride,
        }
    }
}

} // verus!
