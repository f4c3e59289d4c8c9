//! A packed 2-D bitmap: one bit per pixel, rows padded to whole bytes.

use vstd::prelude::*;

verus! {

broadcast use vstd::seq_lib::lemma_seq_contains_after_push;

/// True iff bit `i` of `b` is set.
pub open spec fn nth_bit(b: u8, i: u8) -> bool {
    (b >> i) & 1 == 1
}

/// Row-major ascending order on coordinates.
pub open spec fn row_major_lt(a: (usize, usize), b: (usize, usize)) -> bool {
    a.0 < b.0 || (a.0 == b.0 && a.1 < b.1)
}

/// A 2-D bitmap, packed 8 bits to a byte, each row starting on a new byte.
pub struct BitMap {
    /// Packed bits; row `r` occupies bytes `r * stride .. (r + 1) * stride`.
    data: Vec<u8>,
    /// Size of a row in bytes; equals `width.div_ceil(8)`.
    stride: usize,
    /// In bits.
    width: usize,
    height: usize,
}

impl BitMap {
    pub closed spec fn spec_height(&self) -> nat {
        self.height as nat
    }

    pub closed spec fn spec_width(&self) -> nat {
        self.width as nat
    }

    pub closed spec fn wf(&self) -> bool {
        &&& self.width + 7 <= usize::MAX
        &&& self.stride == (self.width + 7) / 8
        &&& self.data@.len() == self.height * self.stride
        &&& self.height * self.width <= usize::MAX
        &&& self.height * self.stride <= usize::MAX
    }

    /// The abstract value: a sequence of rows, each a sequence of bits.
    pub closed spec fn view(&self) -> Seq<Seq<bool>> {
        Seq::new(
            self.height as nat,
            |r: int|
                Seq::new(
                    self.width as nat,
                    |c: int| nth_bit(self.data@[r * (self.stride as int) + c / 8], (c % 8) as u8),
                ),
        )
    }

    pub proof fn lemma_shape(&self)
        requires
            self.wf(),
        ensures
            self@.len() == self.spec_height(),
            forall|r: int|
                0 <= r < self@.len() ==> (#[trigger] self@[r]).len() == self.spec_width(),
    {
    }

    /// Initialized to all false. Returns `None` when the byte size of the map
    /// would not fit a `usize`.
    pub fn new(height: usize, width: usize) -> (r: Option<BitMap>)
        ensures
            match r {
                Some(bm) => {
                    &&& bm.wf()
                    &&& bm.spec_height() == height
                    &&& bm.spec_width() == width
                    &&& forall|row: int, col: int|
                        0 <= row < height && 0 <= col < width ==> !(#[trigger] bm@[row][col])
                },
                None => height * width > usize::MAX || width + 7 > usize::MAX || height * ((width
                    + 7) / 8) > usize::MAX,
            },
    {
        let size_check = height.checked_mul(width);
        if size_check.is_none() {
            return None;
        }
        let stride_num = width.checked_add(7);
        if stride_num.is_none() {
            return None;
        }
        let stride = stride_num.unwrap() / 8;
        let byte_size_opt = height.checked_mul(stride);
        if byte_size_opt.is_none() {
            return None;
        }
        let byte_size = byte_size_opt.unwrap();
        let data: Vec<u8> = vec![0u8; byte_size];
        let bm = BitMap { data, stride, width, height };
        proof {
            assert forall|row: int, col: int|
                0 <= row < height && 0 <= col < width implies !(#[trigger] bm@[row][col]) by {
                let byte = bm.data@[row * (bm.stride as int) + col / 8];
                assert(row * (bm.stride as int) + col / 8 < bm.data@.len()) by {
                    Self::lemma_byte_index_in_bounds(
                        row,
                        col,
                        bm.stride as int,
                        bm.height as int,
                        bm.width as int,
                    );
                }
                assert(byte == 0u8);
                let bi = (col % 8) as u8;
                assert(!nth_bit(0u8, bi)) by (bit_vector);
            }
        }
        Some(bm)
    }

    /// The byte holding `(row, col)` lies inside the row's byte range.
    proof fn lemma_byte_index_in_bounds(row: int, col: int, stride: int, height: int, width: int)
        requires
            0 <= row < height,
            0 <= col < width,
            stride == (width + 7) / 8,
        ensures
            0 <= row * stride + col / 8,
            row * stride + col / 8 < height * stride,
            col / 8 < stride,
    {
        assert(col / 8 < stride) by {
            assert(col <= width - 1);
            assert(col / 8 <= (width - 1) / 8) by (nonlinear_arith)
                requires 0 <= col <= width - 1;
            assert((width - 1) / 8 < (width + 7) / 8);
        }
        assert(row * stride + stride <= height * stride) by (nonlinear_arith)
            requires 0 <= row < height, 0 <= stride;
        assert(0 <= row * stride) by (nonlinear_arith)
            requires 0 <= row, 0 <= stride;
    }

    pub fn get(&self, rc: (usize, usize)) -> (r: bool)
        requires
            self.wf(),
            rc.0 < self.spec_height(),
            rc.1 < self.spec_width(),
        ensures
            r == self@[rc.0 as int][rc.1 as int],
    {
        let (row, col) = rc;
        proof {
            Self::lemma_byte_index_in_bounds(
                row as int,
                col as int,
                self.stride as int,
                self.height as int,
                self.width as int,
            );
            assert(row * self.stride + col / 8 <= (self.height - 1) * self.stride + col / 8)
                by (nonlinear_arith)
                requires 0 <= row <= self.height - 1, 0 <= self.stride;
        }
        let byte_idx = row * self.stride + col / 8;
        let bit_idx = (col % 8) as u8;
        let byte = self.data[byte_idx];
        let r = (byte & (1u8 << bit_idx)) != 0;
        proof {
            let bi = bit_idx;
            assert((byte & (1u8 << bi) != 0) == nth_bit(byte, bi)) by (bit_vector)
                requires bi < 8;
        }
        r
    }

    pub fn set(&mut self, rc: (usize, usize), value: bool)
        requires
            old(self).wf(),
            rc.0 < old(self).spec_height(),
            rc.1 < old(self).spec_width(),
        ensures
            final(self).wf(),
            final(self).spec_height() == old(self).spec_height(),
            final(self).spec_width() == old(self).spec_width(),
            final(self)@ == old(self)@.update(
                rc.0 as int,
                old(self)@[rc.0 as int].update(rc.1 as int, value),
            ),
    {
        let (row, col) = rc;
        proof {
            Self::lemma_byte_index_in_bounds(
                row as int,
                col as int,
                self.stride as int,
                self.height as int,
                self.width as int,
            );
            assert(row * self.stride + col / 8 <= (self.height - 1) * self.stride + col / 8)
                by (nonlinear_arith)
                requires 0 <= row <= self.height - 1, 0 <= self.stride;
        }
        let byte_idx = row * self.stride + col / 8;
        let bit_idx = (col % 8) as u8;
        let byte = self.data[byte_idx];
        let new_byte = if value {
            byte | (1u8 << bit_idx)
        } else {
            byte & !(1u8 << bit_idx)
        };
        self.data[byte_idx] = new_byte;
        proof {
            let bi = bit_idx;
            assert(value ==> nth_bit(byte | (1u8 << bi), bi)) by (bit_vector)
                requires bi < 8;
            assert(!value ==> !nth_bit(byte & !(1u8 << bi), bi)) by (bit_vector)
                requires bi < 8;
            assert(forall|j: u8|
                j < 8 && j != bi ==> #[trigger] nth_bit(byte | (1u8 << bi), j) == nth_bit(byte, j))
                by (bit_vector)
                requires bi < 8;
            assert(forall|j: u8|
                j < 8 && j != bi ==> #[trigger] nth_bit(byte & !(1u8 << bi), j) == nth_bit(
                    byte,
                    j,
                )) by (bit_vector)
                requires bi < 8;
            self.lemma_set_view(*old(self), row as int, col as int, byte_idx as int, value);
        }
    }

    /// After updating the byte holding `(row, col)` so that only bit `col % 8`
    /// changed, the view changes only at `(row, col)`.
    proof fn lemma_set_view(&self, prev: Self, row: int, col: int, byte_idx: int, value: bool)
        requires
            prev.wf(),
            0 <= row < prev.spec_height(),
            0 <= col < prev.spec_width(),
            byte_idx == row * (prev.stride as int) + col / 8,
            0 <= byte_idx < prev.data@.len(),
            self.stride == prev.stride,
            self.width == prev.width,
            self.height == prev.height,
            self.data@ == prev.data@.update(byte_idx, self.data@[byte_idx]),
            self.data@.len() == prev.data@.len(),
            nth_bit(self.data@[byte_idx], (col % 8) as u8) == value,
            forall|j: u8|
                j < 8 && j != (col % 8) as u8 ==> #[trigger] nth_bit(self.data@[byte_idx], j)
                    == nth_bit(prev.data@[byte_idx], j),
        ensures
            self.wf(),
            self@ == prev@.update(row, prev@[row].update(col, value)),
    {
        let target = prev@.update(row, prev@[row].update(col, value));
        assert forall|r: int| 0 <= r < self@.len() implies self@[r] == target[r] by {
            assert forall|c: int| 0 <= c < self.spec_width() implies self@[r][c] == target[r][c] by {
                Self::lemma_byte_index_in_bounds(
                    r,
                    c,
                    self.stride as int,
                    self.height as int,
                    self.width as int,
                );
                let bidx = r * (self.stride as int) + c / 8;
                if bidx == byte_idx {
                    if r != row {
                        // Distinct rows cannot share a byte.
                        assert(false) by (nonlinear_arith)
                            requires
                                r * (self.stride as int) + c / 8 == row * (self.stride as int) + col
                                    / 8,
                                0 <= c / 8 < self.stride,
                                0 <= col / 8 < self.stride,
                                r != row,
                                0 <= r,
                                0 <= row,
                        ;
                    }
                    if c / 8 != col / 8 {
                        assert(false) by (nonlinear_arith)
                            requires
                                r * (self.stride as int) + c / 8 == row * (self.stride as int) + col
                                    / 8,
                                r == row,
                                c / 8 != col / 8,
                        ;
                    }
                    if c == col {
                        assert(self@[r][c] == value);
                    } else {
                        assert(c % 8 != col % 8) by {
                            assert(c == 8 * (c / 8) + c % 8);
                            assert(col == 8 * (col / 8) + col % 8);
                        }
                        assert(self@[r][c] == prev@[r][c]);
                    }
                } else {
                    assert(0 <= bidx < prev.data@.len());
                    assert(self.data@[bidx] == prev.data@[bidx]);
                    assert(self@[r][c] == prev@[r][c]);
                }
            }
            assert(self@[r] =~= target[r]);
        }
        assert(self@ =~= target);
    }

    pub fn size(&self) -> (r: (usize, usize))
        ensures
            r.0 == self.spec_height(),
            r.1 == self.spec_width(),
    {
        (self.height, self.width)
    }

    /// Every coordinate whose bit is true, in row-major order.
    pub fn for_each_true(&self) -> (r: Vec<(usize, usize)>)
        requires
            self.wf(),
        ensures
            r@.no_duplicates(),
            forall|rc: (usize, usize)|
                r@.contains(rc) <==> (rc.0 < self.spec_height() && rc.1 < self.spec_width()
                    && self@[rc.0 as int][rc.1 as int]),
            r@.len() == count_all(self@),
            forall|a: int, b: int| 0 <= a < b < r@.len() ==> row_major_lt(#[trigger] r@[a], #[trigger] r@[b]),
    {
        self.coords_with(true)
    }

    /// Every coordinate whose bit is false, in row-major order.
    /// Padding bits past the row width are never visited.
    pub fn for_each_false(&self) -> (r: Vec<(usize, usize)>)
        requires
            self.wf(),
        ensures
            r@.no_duplicates(),
            forall|rc: (usize, usize)|
                r@.contains(rc) <==> (rc.0 < self.spec_height() && rc.1 < self.spec_width()
                    && !self@[rc.0 as int][rc.1 as int]),
            r@.len() == self.spec_height() * self.spec_width() - count_all(self@),
            forall|a: int, b: int| 0 <= a < b < r@.len() ==> row_major_lt(#[trigger] r@[a], #[trigger] r@[b]),
    {
        self.coords_with(false)
    }

    fn coords_with(&self, value: bool) -> (r: Vec<(usize, usize)>)
        requires
            self.wf(),
        ensures
            r@.no_duplicates(),
            forall|rc: (usize, usize)|
                r@.contains(rc) <==> (rc.0 < self.spec_height() && rc.1 < self.spec_width()
                    && self@[rc.0 as int][rc.1 as int] == value),
            value ==> r@.len() == count_all(self@),
            !value ==> r@.len() == self.spec_height() * self.spec_width() - count_all(self@),
            forall|a: int, b: int| 0 <= a < b < r@.len() ==> row_major_lt(#[trigger] r@[a], #[trigger] r@[b]),
    {
        let mut out: Vec<(usize, usize)> = Vec::new();
        let mut row: usize = 0;
        while row < self.height
            invariant
                self.wf(),
                row <= self.height,
                out@.no_duplicates(),
                forall|rc: (usize, usize)|
                    #[trigger] out@.contains(rc) ==> rc.0 < row,
                forall|rc: (usize, usize)|
                    out@.contains(rc) <==> (rc.0 < row && rc.1 < self.spec_width()
                        && self@[rc.0 as int][rc.1 as int] == value),
                out@.len() == if value {
                    count_rows_prefix(self@, row as int) as int
                } else {
                    row * self.spec_width() - count_rows_prefix(self@, row as int)
                },
                forall|a: int, b: int|
                    0 <= a < b < out@.len() ==> row_major_lt(
                        #[trigger] out@[a],
                        #[trigger] out@[b],
                    ),
            decreases self.height - row,
        {
            proof {
                self.lemma_shape();
                lemma_count_rows_prefix_bound(self@, row as int, self.spec_width());
            }
            let mut col: usize = 0;
            while col < self.width
                invariant
                    self.wf(),
                    row < self.height,
                    col <= self.width,
                    out@.no_duplicates(),
                    forall|rc: (usize, usize)|
                        #[trigger] out@.contains(rc) ==> (rc.0 < row || (rc.0 == row && rc.1
                            < col)),
                    forall|rc: (usize, usize)|
                        out@.contains(rc) <==> ((rc.0 < row || (rc.0 == row && rc.1 < col)) && rc.1
                            < self.spec_width() && self@[rc.0 as int][rc.1 as int] == value),
                    out@.len() == if value {
                        count_rows_prefix(self@, row as int) + count_prefix(
                            self@[row as int],
                            col as int,
                        ) as int
                    } else {
                        row * self.spec_width() + col - count_rows_prefix(self@, row as int)
                            - count_prefix(self@[row as int], col as int)
                    },
                    forall|a: int, b: int|
                        0 <= a < b < out@.len() ==> row_major_lt(
                            #[trigger] out@[a],
                            #[trigger] out@[b],
                        ),
                decreases self.width - col,
            {
                proof {
                    lemma_count_prefix_bound(self@[row as int], col as int);
                    lemma_count_rows_prefix_bound(self@, row as int, self.spec_width());
                }
                if self.get((row, col)) == value {
                    proof {
                        assert(!out@.contains((row, col)));
                        let prev = out@;
                        assert forall|a: int| 0 <= a < prev.len() implies row_major_lt(
                            prev[a],
                            (row, col),
                        ) by {
                            assert(prev.contains(prev[a]));
                        }
                    }
                    out.push((row, col));
                }
                col += 1;
            }
            proof {
                assert(count_rows_prefix(self@, row as int + 1) == count_rows_prefix(
                    self@,
                    row as int,
                ) + count_row(self@[row as int]));
                assert((row + 1) * self.spec_width() == row * self.spec_width()
                    + self.spec_width()) by (nonlinear_arith);
            }
            row += 1;
        }
        proof {
            assert(row * self.spec_width() == self.spec_height() * self.spec_width())
                by (nonlinear_arith)
                requires row == self.spec_height();
        }
        out
    }

    /// The number of true bits. Whole bytes go through an 8-bit popcount; the
    /// tail byte of each row is walked bit by bit.
    pub fn count_ones(&self) -> (r: usize)
        requires
            self.wf(),
        ensures
            r == count_all(self@),
    {
        proof {
            lemma_count_rows_prefix_bound(self@, self.spec_height() as int, self.spec_width());
        }
        let mut total: usize = 0;
        let mut row: usize = 0;
        while row < self.height
            invariant
                self.wf(),
                row <= self.height,
                total == count_rows_prefix(self@, row as int),
                total <= row * self.spec_width(),
            decreases self.height - row,
        {
            proof {
                self.lemma_shape();
                lemma_count_rows_prefix_bound(self@, row as int, self.spec_width());
                lemma_count_prefix_bound(self@[row as int], self.spec_width() as int);
                assert(row * self.spec_width() + self.spec_width() <= self.spec_height()
                    * self.spec_width()) by (nonlinear_arith)
                    requires 0 <= row < self.spec_height(), 0 <= self.spec_width();
                assert(self.spec_height() * self.spec_width() <= usize::MAX);
            }
            let ghost rowseq = self@[row as int];
            let mut row_count: usize = 0;
            let mut byte_col: usize = 0;
            proof {
                assert(row * self.stride + self.stride <= self.height * self.stride)
                    by (nonlinear_arith)
                    requires 0 <= row < self.height, 0 <= self.stride;
                assert(0 <= row * self.stride) by (nonlinear_arith)
                    requires 0 <= row, 0 <= self.stride;
            }
            let row_start = row * self.stride;
            while byte_col < self.stride
                invariant
                    self.wf(),
                    row < self.height,
                    byte_col <= self.stride,
                    row_start == row * self.stride,
                    row_start + self.stride <= self.data@.len(),
                    rowseq == self@[row as int],
                    rowseq.len() == self.spec_width(),
                    byte_col < self.stride ==> byte_col * 8 < self.spec_width(),
                    byte_col == self.stride ==> row_count == count_row(rowseq),
                    byte_col < self.stride ==> row_count == count_prefix(
                        rowseq,
                        (byte_col * 8) as int,
                    ),
                    row_count <= self.spec_width(),
                decreases self.stride - byte_col,
            {
                let byte = self.data[row_start + byte_col];
                proof {
                    lemma_count_prefix_bound(rowseq, rowseq.len() as int);
                    if byte_col + 1 < self.stride {
                        // Not the final byte of the row: the next byte still
                        // starts inside the row.
                        assert((byte_col + 1) * 8 < self.spec_width());
                    }
                }
                if byte_col * 8 + 7 < self.width {
                    let ghost n = (byte_col * 8) as int;
                    proof {
                        assert forall|i: int| 0 <= i < 8 implies #[trigger] rowseq[n + i]
                            == nth_bit(byte, i as u8) by {
                            self.lemma_view_bit(row as int, n + i, byte_col as int);
                        }
                        lemma_count_prefix_byte(rowseq, n, byte, 8);
                        lemma_count_prefix_bound(rowseq, n + 8);
                    }
                    row_count += popcount8(byte) as usize;
                } else {
                    let mut bit_col: usize = 0;
                    while bit_col < 8 && byte_col * 8 + bit_col < self.width
                        invariant
                            self.wf(),
                            row < self.height,
                            byte_col < self.stride,
                            bit_col <= 8,
                            row_start == row * self.stride,
                            row_start + self.stride <= self.data@.len(),
                            byte == self.data@[row_start + byte_col],
                            rowseq == self@[row as int],
                            rowseq.len() == self.spec_width(),
                            byte_col * 8 + 7 >= self.spec_width(),
                            byte_col * 8 + bit_col <= self.spec_width(),
                            row_count == count_prefix(rowseq, (byte_col * 8 + bit_col) as int),
                            row_count <= self.spec_width(),
                        decreases 8 - bit_col,
                    {
                        let col = byte_col * 8 + bit_col;
                        proof {
                            self.lemma_view_bit(row as int, col as int, byte_col as int);
                            lemma_count_prefix_bound(rowseq, col as int + 1);
                        }
                        if (byte >> (bit_col as u8)) & 1 == 1 {
                            row_count += 1;
                        }
                        bit_col += 1;
                    }
                    proof {
                        // The loop can only stop at the exact row width: the
                        // tail byte ends at or past the width, so `bit_col`
                        // cannot reach 8 while still inside the row.
                        assert(byte_col * 8 + bit_col == self.spec_width());
                    }
                }
                byte_col += 1;
            }
            proof {
                if self.stride == 0 {
                    assert(self.spec_width() == 0);
                    assert(row_count == count_row(rowseq));
                }
            }
            total += row_count;
            proof {
                assert(row * self.spec_width() + self.spec_width() == (row + 1)
                    * self.spec_width()) by (nonlinear_arith);
            }
            row += 1;
        }
        total
    }

    /// Bit `col` of row `row` is bit `col % 8` of the byte at
    /// `row * stride + col / 8`.
    proof fn lemma_view_bit(&self, row: int, col: int, byte_col: int)
        requires
            self.wf(),
            0 <= row < self.spec_height(),
            0 <= col < self.spec_width(),
            byte_col == col / 8,
        ensures
            self@[row][col] == nth_bit(
                self.data@[row * (self.stride as int) + byte_col],
                (col % 8) as u8,
            ),
    {
    }
}

/// The number of true bits among `row[0..n]`.
pub open spec fn count_prefix(row: Seq<bool>, n: int) -> nat
    decreases n,
{
    if n <= 0 {
        0
    } else {
        count_prefix(row, n - 1) + if row[n - 1] {
            1nat
        } else {
            0nat
        }
    }
}

/// The number of true bits in a row.
pub open spec fn count_row(row: Seq<bool>) -> nat {
    count_prefix(row, row.len() as int)
}

/// The number of true bits among the first `n` rows.
pub open spec fn count_rows_prefix(rows: Seq<Seq<bool>>, n: int) -> nat
    decreases n,
{
    if n <= 0 {
        0
    } else {
        count_rows_prefix(rows, n - 1) + count_row(rows[n - 1])
    }
}

/// The number of true bits in a whole bitmap view.
pub open spec fn count_all(rows: Seq<Seq<bool>>) -> nat {
    count_rows_prefix(rows, rows.len() as int)
}

pub proof fn lemma_count_prefix_bound(row: Seq<bool>, n: int)
    ensures
        count_prefix(row, n) <= if n <= 0 {
            0int
        } else {
            n
        },
    decreases n,
{
    if n > 0 {
        lemma_count_prefix_bound(row, n - 1);
    }
}

/// Extending a prefix by `k` bits that mirror the low `k` bits of `byte` adds
/// the popcount of those bits.
proof fn lemma_count_prefix_byte(row: Seq<bool>, n: int, byte: u8, k: int)
    requires
        0 <= n,
        0 <= k <= 8,
        n + k <= row.len(),
        forall|i: int| 0 <= i < k ==> #[trigger] row[n + i] == nth_bit(byte, i as u8),
    ensures
        count_prefix(row, n + k) == count_prefix(row, n) + count_bits_prefix(byte, k),
    decreases k,
{
    if k > 0 {
        lemma_count_prefix_byte(row, n, byte, k - 1);
    }
}

pub proof fn lemma_count_rows_prefix_bound(rows: Seq<Seq<bool>>, n: int, width: nat)
    requires
        forall|r: int| 0 <= r < rows.len() ==> (#[trigger] rows[r]).len() == width,
        n <= rows.len(),
    ensures
        count_rows_prefix(rows, n) <= if n <= 0 {
            0int
        } else {
            n * width
        },
    decreases n,
{
    if n > 0 {
        lemma_count_rows_prefix_bound(rows, n - 1, width);
        lemma_count_prefix_bound(rows[n - 1], rows[n - 1].len() as int);
        assert((n - 1) * width + width == n * width) by (nonlinear_arith);
    }
}

/// The number of set bits among the low `k` bits of `b`.
pub open spec fn count_bits_prefix(b: u8, k: int) -> nat
    decreases k,
{
    if k <= 0 {
        0
    } else {
        count_bits_prefix(b, k - 1) + if nth_bit(b, (k - 1) as u8) {
            1nat
        } else {
            0nat
        }
    }
}

/// The number of set bits in a byte.
pub fn popcount8(b: u8) -> (r: u8)
    ensures
        r == count_bits_prefix(b, 8),
{
    let mut count: u8 = 0;
    let mut i: u8 = 0;
    while i < 8
        invariant
            i <= 8,
            count == count_bits_prefix(b, i as int),
            count <= i,
        decreases 8 - i,
    {
        if (b >> i) & 1 == 1 {
            count += 1;
        }
        i += 1;
    }
    count
}

/// Flipping one bit moves the count by exactly that bit's change.
pub proof fn lemma_count_prefix_update(row: Seq<bool>, c: int, v: bool, n: int)
    requires
        0 <= c < row.len(),
        n <= row.len(),
    ensures
        count_prefix(row.update(c, v), n) == count_prefix(row, n) + if c < n {
            (if v { 1int } else { 0int }) - (if row[c] { 1int } else { 0int })
        } else {
            0int
        },
    decreases n,
{
    if n > 0 {
        lemma_count_prefix_update(row, c, v, n - 1);
    }
}

/// Writing one bit moves the whole count by exactly that bit's change.
pub proof fn lemma_count_update(rows: Seq<Seq<bool>>, r: int, c: int, v: bool)
    requires
        0 <= r < rows.len(),
        0 <= c < rows[r].len(),
    ensures
        count_all(rows.update(r, rows[r].update(c, v))) == count_all(rows) + (if v {
            1int
        } else {
            0int
        }) - (if rows[r][c] {
            1int
        } else {
            0int
        }),
{
    lemma_count_rows_prefix_update(rows, r, c, v, rows.len() as int);
}

proof fn lemma_count_rows_prefix_update(rows: Seq<Seq<bool>>, r: int, c: int, v: bool, n: int)
    requires
        0 <= r < rows.len(),
        0 <= c < rows[r].len(),
        n <= rows.len(),
    ensures
        count_rows_prefix(rows.update(r, rows[r].update(c, v)), n) == count_rows_prefix(rows, n)
            + if r < n {
            (if v { 1int } else { 0int }) - (if rows[r][c] { 1int } else { 0int })
        } else {
            0int
        },
    decreases n,
{
    if n > 0 {
        lemma_count_rows_prefix_update(rows, r, c, v, n - 1);
        let updated = rows.update(r, rows[r].update(c, v));
        if n - 1 == r {
            lemma_count_prefix_update(rows[r], c, v, rows[r].len() as int);
            assert(updated[n - 1] == rows[r].update(c, v));
        } else {
            assert(updated[n - 1] == rows[n - 1]);
        }
    }
}

/// A row with a false bit counts strictly below its length.
proof fn lemma_count_prefix_strict(row: Seq<bool>, c: int, n: int)
    requires
        0 <= c < n <= row.len(),
        !row[c],
    ensures
        count_prefix(row, n) <= n - 1,
    decreases n,
{
    lemma_count_prefix_bound(row, n - 1);
    if c < n - 1 {
        lemma_count_prefix_strict(row, c, n - 1);
    }
}

/// A bitmap with a false bit counts strictly below its area.
pub proof fn lemma_count_lt_full(rows: Seq<Seq<bool>>, r: int, c: int, width: nat)
    requires
        forall|i: int| 0 <= i < rows.len() ==> (#[trigger] rows[i]).len() == width,
        0 <= r < rows.len(),
        0 <= c < width,
        !rows[r][c],
    ensures
        count_all(rows) < rows.len() * width,
{
    lemma_count_rows_lt(rows, r, c, width, rows.len() as int);
}

proof fn lemma_count_rows_lt(rows: Seq<Seq<bool>>, r: int, c: int, width: nat, n: int)
    requires
        forall|i: int| 0 <= i < rows.len() ==> (#[trigger] rows[i]).len() == width,
        0 <= r < rows.len(),
        0 <= c < width,
        !rows[r][c],
        n <= rows.len(),
    ensures
        count_rows_prefix(rows, n) <= if n <= 0 {
            0int
        } else {
            n * width - if r < n {
                1int
            } else {
                0int
            }
        },
    decreases n,
{
    if n > 0 {
        lemma_count_rows_lt(rows, r, c, width, n - 1);
        assert((n - 1) * width + width == n * width) by (nonlinear_arith);
        if n - 1 == r {
            lemma_count_prefix_strict(rows[r], c, width as int);
        } else {
            lemma_count_prefix_bound(rows[n - 1], rows[n - 1].len() as int);
        }
    }
}

/// An all-false bitmap counts zero.
pub proof fn lemma_count_zero(rows: Seq<Seq<bool>>, n: int)
    requires
        forall|r: int, c: int|
            0 <= r < rows.len() && 0 <= c < (#[trigger] rows[r]).len() ==> !(#[trigger] rows[r][c]),
        n <= rows.len(),
    ensures
        count_rows_prefix(rows, n) == 0,
    decreases n,
{
    if n > 0 {
        lemma_count_zero(rows, n - 1);
        lemma_count_row_zero(rows, n - 1, rows[n - 1].len() as int);
    }
}

proof fn lemma_count_row_zero(rows: Seq<Seq<bool>>, r: int, k: int)
    requires
        0 <= r < rows.len(),
        forall|rr: int, c: int|
            0 <= rr < rows.len() && 0 <= c < (#[trigger] rows[rr]).len() ==> !(#[trigger] rows[rr][c]),
        k <= rows[r].len(),
    ensures
        count_prefix(rows[r], k) == 0,
    decreases k,
{
    if k > 0 {
        lemma_count_row_zero(rows, r, k - 1);
    }
}

/// A range of bit positions within one byte: `start..end`, clipped to the
/// byte's eight bits.
#[derive(Debug, Clone, Copy, Default, PartialEq, Eq, Structural)]
pub struct ByteBitRange {
    pub start: u8,
    pub end: u8,
}

/// The mask a range denotes: bit `i` set iff `start <= i < end` (and `i`
/// inside the byte).
pub open spec fn range_mask(start: u8, end: u8, i: u8) -> bool {
    start <= i && i < end && i < 8
}

impl ByteBitRange {
    pub fn empty() -> (r: ByteBitRange)
        ensures
            r.start == 0 && r.end == 0,
    {
        ByteBitRange { start: 0, end: 0 }
    }

    /// The byte with exactly this range's bits set.
    pub fn mask(&self) -> (r: u8)
        ensures
            forall|i: u8| i < 8 ==> #[trigger] nth_bit(r, i) == range_mask(self.start, self.end, i),
    {
        let r: u8 = if self.start >= self.end || self.start >= 8 {
            0
        } else if self.end >= 8 {
            255u8 << self.start
        } else {
            ((255u8 << self.start) << (8 - self.end)) >> (8 - self.end)
        };
        proof {
            let s = self.start;
            let e = self.end;
            if s >= e || s >= 8 {
                assert(forall|i: u8| i < 8 ==> #[trigger] nth_bit(0u8, i) == false)
                    by (bit_vector);
            } else if e >= 8 {
                assert(forall|i: u8|
                    i < 8 ==> #[trigger] nth_bit(255u8 << s, i) == (s <= i)) by (bit_vector)
                    requires s < 8;
            } else {
                let sh: u8 = (8 - e) as u8;
                assert(forall|i: u8|
                    i < 8 ==> #[trigger] nth_bit(((255u8 << s) << sh) >> sh, i) == (s <= i && i
                        < e)) by (bit_vector)
                    requires s < 8, s < e, e < 8, sh == 8 - e;
            }
        }
        r
    }

    /// True iff no bit position lies in the range.
    pub fn is_empty(&self) -> (r: bool)
        ensures
            r == !(self.start < self.end && self.start < 8),
    {
        self.start >= self.end || self.start >= 8
    }

    /// The number of bit positions in the range.
    pub fn len(&self) -> (r: usize)
        ensures
            r == if self.start < self.end && self.start < 8 {
                (if self.end <= 8 {
                    self.end as int
                } else {
                    8
                }) - self.start
            } else {
                0int
            },
    {
        if self.start >= self.end || self.start >= 8 {
            0
        } else if self.end >= 8 {
            (8 - self.start) as usize
        } else {
            (self.end - self.start) as usize
        }
    }

    /// Takes the first position out of the range.
    pub fn pop_first(&mut self) -> (r: Option<u8>)
        ensures
            match r {
                Some(v) => old(self).start < old(self).end && old(self).start < 8 && v == old(
                    self,
                ).start && final(self).start == old(self).start + 1 && final(self).end == old(
                    self,
                ).end,
                None => !(old(self).start < old(self).end && old(self).start < 8) && *final(self)
                    == *old(self),
            },
    {
        if !(self.start >= self.end || self.start >= 8) {
            let value = self.start;
            self.start += 1;
            Some(value)
        } else {
            None
        }
    }

    /// Takes the last position out of the range.
    pub fn pop_last(&mut self) -> (r: Option<u8>)
        ensures
            match r {
                Some(v) => old(self).start < old(self).end && old(self).start < 8 && v == old(
                    self,
                ).end - 1 && final(self).end == old(self).end - 1 && final(self).start == old(
                    self,
                ).start,
                None => !(old(self).start < old(self).end && old(self).start < 8) && *final(self)
                    == *old(self),
            },
    {
        if !(self.start >= self.end || self.start >= 8) {
            self.end -= 1;
            Some(self.end)
        } else {
            None
        }
    }

    /// Reads a range back from a mask: `Some` exactly when the set bits form
    /// one contiguous run (or none at all); a mask whose zeros do not all
    /// sit at the ends is handed back as `None`.
    pub fn from_mask(mask: u8) -> (r: Option<ByteBitRange>)
        ensures
            match r {
                Some(br) => br.start <= br.end <= 8 && forall|i: u8|
                    i < 8 ==> #[trigger] nth_bit(mask, i) == range_mask(br.start, br.end, i),
                None => mask != 0 && u8_leading_zeros_exec_spec(mask) + count_bits_prefix(mask, 8)
                    + u8_trailing_zeros_exec_spec(mask) != 8,
            },
            mask == 0 ==> r == Some(ByteBitRange { start: 0, end: 0 }),
    {
        if mask == 0 {
            proof {
                assert(forall|i: u8| i < 8 ==> #[trigger] nth_bit(0u8, i) == false)
                    by (bit_vector);
            }
            return Some(ByteBitRange { start: 0, end: 0 });
        }
        let tz = mask.trailing_zeros() as u8;
        let lz = mask.leading_zeros() as u8;
        let ones = popcount8(mask);
        if (lz as u32) + (ones as u32) + (tz as u32) != 8 {
            return None;
        }
        let r = ByteBitRange { start: tz, end: 8 - lz };
        proof {
            let m = mask;
            let s = r.start;
            let e = r.end;
            lemma_contiguous_mask(m, s, e);
        }
        Some(r)
    }
}

/// A nonzero mask whose leading zeros, set bits and trailing zeros fill the
/// byte has its set bits contiguous between the zeros.
proof fn lemma_contiguous_mask(m: u8, s: u8, e: u8)
    requires
        m != 0,
        s == u8_trailing_zeros_exec_spec(m),
        e == 8 - u8_leading_zeros_exec_spec(m),
        u8_leading_zeros_exec_spec(m) + count_bits_prefix(m, 8) + u8_trailing_zeros_exec_spec(m)
            == 8,
    ensures
        s <= e <= 8,
        forall|i: u8| i < 8 ==> #[trigger] nth_bit(m, i) == range_mask(s, e, i),
{
    vstd::std_specs::bits::axiom_u8_trailing_zeros(m);
    vstd::std_specs::bits::axiom_u8_leading_zeros(m);
    let tz = vstd::std_specs::bits::u8_trailing_zeros(m);
    let lz = vstd::std_specs::bits::u8_leading_zeros(m);
    assert(count_bits_prefix(m, 8) == 8 - lz - tz);
    lemma_run_between_zeros(m, tz as u8, (8 - lz) as u8);
}

/// The executable-facing name for the trailing-zero count.
pub open spec fn u8_trailing_zeros_exec_spec(m: u8) -> int {
    vstd::std_specs::bits::u8_trailing_zeros(m) as int
}

/// The executable-facing name for the leading-zero count.
pub open spec fn u8_leading_zeros_exec_spec(m: u8) -> int {
    vstd::std_specs::bits::u8_leading_zeros(m) as int
}

/// A byte with `s` trailing zeros, `8 - e` leading zeros and `e - s` set
/// bits is exactly the run `s..e`.
proof fn lemma_run_between_zeros(m: u8, s: u8, e: u8)
    requires
        m != 0,
        s == vstd::std_specs::bits::u8_trailing_zeros(m),
        e == 8 - vstd::std_specs::bits::u8_leading_zeros(m),
        count_bits_prefix(m, 8) == e - s,
    ensures
        s <= e <= 8,
        forall|i: u8| i < 8 ==> #[trigger] nth_bit(m, i) == range_mask(s, e, i),
{
    vstd::std_specs::bits::axiom_u8_trailing_zeros(m);
    vstd::std_specs::bits::axiom_u8_leading_zeros(m);
    // Outside `s..e` every bit is zero; with `e - s` set bits in all, each
    // bit inside the run must be set.
    assert forall|i: u8| i < 8 && !(s <= i && i < e) implies !nth_bit(m, i) by {
        let tz = vstd::std_specs::bits::u8_trailing_zeros(m);
        let lz = vstd::std_specs::bits::u8_leading_zeros(m);
        if i < s {
            assert(i < tz);
            assert(m >> i & 1 == 0 ==> !nth_bit(m, i)) by (bit_vector);
        } else {
            assert(8 - lz <= i as u32);
        }
    }
    lemma_count_run(m, s, e);
}

/// With all bits outside `s..e` clear and `e - s` bits set in all, every
/// bit inside `s..e` is set.
proof fn lemma_count_run(m: u8, s: u8, e: u8)
    requires
        s <= e <= 8,
        forall|i: u8| i < 8 && !(s <= i && i < e) ==> !(#[trigger] nth_bit(m, i)),
        count_bits_prefix(m, 8) == e - s,
    ensures
        forall|i: u8| i < 8 ==> #[trigger] nth_bit(m, i) == range_mask(s, e, i),
{
    lemma_count_bits_window(m, s, e, 8);
    if exists|i: u8| s <= i < e && !nth_bit(m, i) {
        let w = choose|i: u8| s <= i < e && !nth_bit(m, i);
        lemma_count_bits_missing(m, s, e, w, 8);
    }
}

/// The total set-bit count is at most the window size `e - s` when all
/// bits outside the window are clear.
proof fn lemma_count_bits_window(m: u8, s: u8, e: u8, k: int)
    requires
        s <= e <= 8,
        forall|i: u8| i < 8 && !(s <= i && i < e) ==> !(#[trigger] nth_bit(m, i)),
        0 <= k <= 8,
    ensures
        count_bits_prefix(m, k) <= if k <= s {
            0int
        } else if k <= e {
            k - s
        } else {
            e - s
        },
    decreases k,
{
    if k > 0 {
        lemma_count_bits_window(m, s, e, k - 1);
    }
}

/// With one window bit clear, the count stays below the window size.
proof fn lemma_count_bits_missing(m: u8, s: u8, e: u8, w: u8, k: int)
    requires
        s <= e <= 8,
        s <= w < e,
        !nth_bit(m, w),
        forall|i: u8| i < 8 && !(s <= i && i < e) ==> !(#[trigger] nth_bit(m, i)),
        0 <= k <= 8,
    ensures
        count_bits_prefix(m, k) <= (if k <= s {
            0int
        } else if k <= e {
            k - s
        } else {
            e - s
        }) - if w < k {
            1int
        } else {
            0int
        },
    decreases k,
{
    if k > 0 {
        lemma_count_bits_missing(m, s, e, w, k - 1);
    }
}

/// The number of whole bytes needed for `val` bits.
pub fn div_ceil_8(val: usize) -> (r: usize)
    ensures
        r == (val + 7) / 8,
{
    if val % 8 == 0 {
        val / 8
    } else {
        (val / 8) + 1
    }
}

/// The byte holding bit `val`.
pub fn div_floor_8(val: usize) -> (r: usize)
    ensures
        r == val / 8,
{
    val / 8
}

/// Why a bit range is not valid for one byte.
#[derive(Debug, Clone, Copy, PartialEq, Eq, Structural)]
pub enum BitRangeError {
    StartAfterEnd,
    StartOutOfRange,
    EndOutOfRange,
}

/// Checks that a range is meaningful for one byte: ordered, with both
/// bounds at most eight.
pub fn verify_bit_range(range: ByteBitRange) -> (r: Result<ByteBitRange, BitRangeError>)
    ensures
        match r {
            Ok(br) => br == range && range.start <= range.end && range.start <= 8 && range.end
                <= 8,
            Err(BitRangeError::StartAfterEnd) => range.start > range.end,
            Err(BitRangeError::StartOutOfRange) => range.start <= range.end && range.start > 8,
            Err(BitRangeError::EndOutOfRange) => range.start <= range.end && range.start <= 8
                && range.end > 8,
        },
{
    if range.start > range.end {
        Err(BitRangeError::StartAfterEnd)
    } else if range.start > 8 {
        Err(BitRangeError::StartOutOfRange)
    } else if range.end > 8 {
        Err(BitRangeError::EndOutOfRange)
    } else {
        Ok(range)
    }
}

/// The eight bits of a byte, lowest first.
pub fn byte_to_bits(byte: u8) -> (r: [bool; 8])
    ensures
        forall|i: int| 0 <= i < 8 ==> #[trigger] r[i] == nth_bit(byte, i as u8),
{
    let r: [bool; 8] = [
        (byte & 1) != 0,
        (byte & 2) != 0,
        (byte & 4) != 0,
        (byte & 8) != 0,
        (byte & 16) != 0,
        (byte & 32) != 0,
        (byte & 64) != 0,
        (byte & 128) != 0,
    ];
    proof {
        assert((byte & 1 != 0) == nth_bit(byte, 0) && (byte & 2 != 0) == nth_bit(byte, 1) && (byte
            & 4 != 0) == nth_bit(byte, 2) && (byte & 8 != 0) == nth_bit(byte, 3) && (byte & 16
            != 0) == nth_bit(byte, 4) && (byte & 32 != 0) == nth_bit(byte, 5) && (byte & 64 != 0)
            == nth_bit(byte, 6) && (byte & 128 != 0) == nth_bit(byte, 7)) by (bit_vector);
    }
    r
}

/// The bits of a byte inside the given range, lowest first.
pub fn byte_to_bits_with_range(byte: u8, bitrange: ByteBitRange) -> (r: Vec<bool>)
    ensures
        r@.len() == if bitrange.start < bitrange.end && bitrange.start < 8 {
            (if bitrange.end <= 8 {
                bitrange.end as int
            } else {
                8
            }) - bitrange.start
        } else {
            0int
        },
        forall|i: int|
            0 <= i < r@.len() ==> #[trigger] r@[i] == nth_bit(byte, (bitrange.start + i) as u8),
{
    let mut out: Vec<bool> = Vec::new();
    let hi: u8 = if bitrange.end <= 8 {
        bitrange.end
    } else {
        8
    };
    let mut i: u8 = bitrange.start;
    if i >= 8 || i >= hi {
        return out;
    }
    while i < hi
        invariant
            bitrange.start <= i <= hi <= 8,
            out@.len() == i - bitrange.start,
            forall|k: int|
                0 <= k < out@.len() ==> #[trigger] out@[k] == nth_bit(
                    byte,
                    (bitrange.start + k) as u8,
                ),
        decreases hi - i,
    {
        let b = (byte >> i) & 1 == 1;
        out.push(b);
        i += 1;
    }
    out
}

/// Writing a mask bit and reading it back yields the value written, and no
/// other bit moves.
pub proof fn lemma_mask_set_get(rows: Seq<Seq<bool>>, r: int, c: int, v: bool)
    requires
        0 <= r < rows.len(),
        0 <= c < rows[r].len(),
    ensures
        rows.update(r, rows[r].update(c, v))[r][c] == v,
        forall|r2: int, c2: int|
            0 <= r2 < rows.len() && 0 <= c2 < rows[r2].len() && !(r2 == r && c2 == c)
                ==> rows.update(r, rows[r].update(c, v))[r2][c2] == #[trigger] rows[r2][c2],
{
}

} // verus!
