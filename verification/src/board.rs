//! The playfield: ten columns of up to forty rows, one `u64` bitmask per
//! column, bit `y` set when cell `(x, y)` is filled.

use vstd::prelude::*;

use crate::data::PieceLocation;

verus! {

/// A ten-column bitboard. Rows 40 and above are out of play and always empty.
#[derive(Clone, Copy, Debug, PartialEq, Eq, Hash)]
pub struct Board {
    pub cols: [u64; 10],
}

/// Bitwise AND of the columns of `cols` with index below `n`: a set bit marks
/// a row filled in every one of those columns.
pub open spec fn and_below(cols: Seq<u64>, n: int) -> u64
    decreases n,
{
    if n <= 0 {
        !0u64
    } else {
        and_below(cols, n - 1) & cols[n - 1]
    }
}

/// Number of set bits of `v` at positions below `y`.
pub open spec fn ones_below(v: u64, y: int) -> int
    decreases y,
{
    if y <= 0 {
        0
    } else {
        ones_below(v, y - 1) + (if v >> ((y - 1) as u64) & 1 == 1 {
            1int
        } else {
            0int
        })
    }
}

/// Number of set bits of `v`.
pub open spec fn popcount(v: u64) -> int {
    ones_below(v, 64)
}

/// One step of removing the rows of `lines` from a column: the pair carries
/// the bits produced so far and the next output position. Rows named by
/// `lines` are dropped; the others are packed downward in order.
pub open spec fn squash_below(col: u64, lines: u64, y: int) -> (u64, u64)
    decreases y,
{
    if y <= 0 {
        (0u64, 0u64)
    } else {
        let prev = squash_below(col, lines, y - 1);
        if lines >> ((y - 1) as u64) & 1 == 1 {
            prev
        } else if col >> ((y - 1) as u64) & 1 == 1 {
            ((prev.0 | (1u64 << prev.1)), (prev.1 + 1) as u64)
        } else {
            (prev.0, (prev.1 + 1) as u64)
        }
    }
}

/// The column `col` with the rows of `lines` removed and the rows above them
/// shifted down to close the gaps.
pub open spec fn squash(col: u64, lines: u64) -> u64 {
    squash_below(col, lines, 64).0
}

/// Remove the rows of `lines` from a single column.
pub fn clear_lines(col: u64, lines: u64) -> (r: u64)
    ensures
        r == squash(col, lines),
        col >> 40 == 0 ==> r >> 40 == 0,
{
    let mut acc: u64 = 0;
    let mut out: u64 = 0;
    let mut y: usize = 0;
    proof {
        assert(0u64 >> 40 == 0) by (bit_vector);
    }
    while y < 64
        invariant
            y <= 64,
            (acc, out) == squash_below(col, lines, y as int),
            out <= y,
            col >> 40 == 0 ==> acc >> 40 == 0,
        decreases 64 - y,
    {
        if lines >> (y as u64) & 1 != 1 {
            if col >> (y as u64) & 1 == 1 {
                proof {
                    assert(col >> 40 == 0 && y < 64 && 40 <= (y as u64) ==> col >> (y as u64) & 1
                        == 0) by (bit_vector);
                    assert(acc >> 40 == 0 && out < 40 ==> (acc | (1u64 << out)) >> 40 == 0)
                        by (bit_vector);
                }
                acc = acc | (1u64 << out);
            }
            out = out + 1;
        }
        y = y + 1;
    }
    acc
}

impl Board {
    /// Rows 40 and above are empty in every column.
    pub open spec fn wf(self) -> bool {
        forall|x: int| 0 <= x < 10 ==> #[trigger] self.cols@[x] >> 40 == 0
    }

    /// Whether cell `(x, y)` is filled; cells outside the playfield count as
    /// filled, so collision checks are total.
    pub open spec fn occ(self, x: int, y: int) -> bool {
        !(0 <= x < 10 && 0 <= y < 40) || self.cols@[x] >> (y as u64) & 1 == 1
    }

    /// A board with every cell empty.
    pub fn empty() -> (b: Board)
        ensures
            b.wf(),
            forall|x: int, y: int| 0 <= x < 10 && 0 <= y < 40 ==> !b.occ(x, y),
            forall|x: int| 0 <= x < 10 ==> b.cols@[x] == 0,
    {
        let b = Board { cols: [0, 0, 0, 0, 0, 0, 0, 0, 0, 0] };
        proof {
            assert(forall|y: u64| 0u64 >> y == 0) by (bit_vector);
            assert(forall|y: u64| 0u64 >> y & 1 == 0) by (bit_vector);
        }
        b
    }

    /// Whether the cell `c` is filled or out of bounds.
    pub fn occupied(&self, c: (i8, i8)) -> (r: bool)
        ensures
            r == self.occ(c.0 as int, c.1 as int),
    {
        let (x, y) = c;
        if x < 0 || x >= 10 || y < 0 || y >= 40 {
            return true;
        }
        let col = self.cols[x as usize];
        proof {
            let yu = y as u64;
            assert(yu < 64 ==> ((col & (1u64 << yu) != 0) == (col >> yu & 1 == 1))) by (bit_vector);
        }
        col & (1u64 << (y as u64)) != 0
    }

    /// Count of contiguous empty cells in column `x` directly beneath `(x, y)`,
    /// stopping at the floor. Counting continues from `d` cells down.
    pub open spec fn drop_from(self, x: int, y: int, d: int) -> int
        decreases y - d,
    {
        if y - d <= 0 {
            d
        } else if self.occ(x, y - d - 1) {
            d
        } else {
            self.drop_from(x, y, d + 1)
        }
    }

    /// Count of contiguous empty cells in column `x` directly beneath `(x, y)`.
    pub open spec fn dist_to_ground(self, x: int, y: int) -> int {
        self.drop_from(x, y, 0)
    }

    /// How far the cell `(x, y)` can fall before resting on a filled cell or
    /// the floor.
    pub fn distance_to_ground(&self, x: i8, y: i8) -> (r: i8)
        requires
            0 <= x < 10,
            0 <= y < 40,
        ensures
            r == self.dist_to_ground(x as int, y as int),
            0 <= r <= y,
    {
        let mut d: i8 = 0;
        while y - d > 0 && !self.occupied((x, y - d - 1))
            invariant
                0 <= d <= y < 40,
                self.drop_from(x as int, y as int, d as int) == self.dist_to_ground(
                    x as int,
                    y as int,
                ),
            decreases y - d,
        {
            d = d + 1;
        }
        d
    }

    /// Fill the four cells of `piece`.
    pub fn place(&mut self, piece: PieceLocation)
        requires
            piece.coords_in_range(),
            forall|i: int|
                0 <= i < 4 ==> {
                    let c = #[trigger] piece.cell(i);
                    0 <= c.0 < 10 && 0 <= c.1 < 40
                },
        ensures
            forall|x: int|
                0 <= x < 10 ==> #[trigger] final(self).cols@[x] == old(self).cols@[x] | cell_mask(
                    piece,
                    x,
                ),
            old(self).wf() ==> final(self).wf(),
    {
        let cells = piece.cells();
        let ghost pre = self.cols@;
        proof {
            assert(forall|c: u64| #![auto] c | 0u64 == c) by (bit_vector);
        }
        let mut i: usize = 0;
        while i < 4
            invariant
                i <= 4,
                piece.coords_in_range(),
                forall|k: int|
                    0 <= k < 4 ==> {
                        let c = #[trigger] piece.cell(k);
                        0 <= c.0 < 10 && 0 <= c.1 < 40
                    },
                forall|k: int|
                    0 <= k < 4 ==> (#[trigger] cells@[k].0 as int, cells@[k].1 as int)
                        == piece.cell(k),
                self.cols@.len() == 10,
                pre.len() == 10,
                forall|x: int|
                    0 <= x < 10 ==> #[trigger] self.cols@[x] == pre[x] | cell_mask_below(
                        piece,
                        x,
                        i as int,
                    ),
            decreases 4 - i,
        {
            let (x, y) = cells[i];
            proof {
                let xi = x as int;
                let yu = y as u64;
                assert forall|x2: int| 0 <= x2 < 10 implies #[trigger] cell_mask_below(
                    piece,
                    x2,
                    i as int + 1,
                ) == (if x2 == xi {
                    cell_mask_below(piece, x2, i as int) | (1u64 << yu)
                } else {
                    cell_mask_below(piece, x2, i as int)
                }) by {
                    let m = cell_mask_below(piece, x2, i as int);
                    if x2 != xi {
                        assert(m | 0u64 == m) by (bit_vector);
                    }
                }
                let c0 = pre[xi];
                let m = cell_mask_below(piece, xi, i as int);
                assert((c0 | m) | (1u64 << yu) == c0 | (m | (1u64 << yu))) by (bit_vector);
            }
            self.cols[x as usize] = self.cols[x as usize] | (1u64 << (y as u64));
            i = i + 1;
        }
        proof {
            assert forall|x: int| 0 <= x < 10 && old(self).wf() implies #[trigger] self.cols@[x]
                >> 40 == 0 by {
                lemma_cell_mask_below_low(piece, x, 4);
                let m = cell_mask_below(piece, x, 4);
                let c = pre[x];
                assert(c >> 40 == 0 && m >> 40 == 0 ==> (c | m) >> 40 == 0) by (bit_vector);
            }
        }
    }

    /// Mask of rows that are filled across every column.
    pub fn line_clears(&self) -> (r: u64)
        ensures
            r == and_below(self.cols@, 10),
            self.wf() ==> r >> 40 == 0,
    {
        let mut acc: u64 = !0;
        let mut x: usize = 0;
        while x < 10
            invariant
                x <= 10,
                acc == and_below(self.cols@, x as int),
            decreases 10 - x,
        {
            acc = acc & self.cols[x];
            x = x + 1;
        }
        proof {
            if self.wf() {
                let c9 = self.cols@[9];
                let rest = and_below(self.cols@, 9);
                assert(c9 >> 40 == 0 ==> (rest & c9) >> 40 == 0) by (bit_vector);
            }
        }
        acc
    }

    /// Remove the rows of `lines` from every column, shifting the rows above
    /// them down.
    pub fn remove_lines(&mut self, lines: u64)
        ensures
            final(self).cols@.len() == 10,
            forall|x: int|
                0 <= x < 10 ==> #[trigger] final(self).cols@[x] == squash(
                    old(self).cols@[x],
                    lines,
                ),
            old(self).wf() ==> final(self).wf(),
    {
        let ghost pre = self.cols@;
        let mut x: usize = 0;
        while x < 10
            invariant
                x <= 10,
                self.cols@.len() == 10,
                forall|k: int| x as int <= k < 10 ==> #[trigger] self.cols@[k] == pre[k],
                forall|k: int|
                    0 <= k < x as int ==> #[trigger] self.cols@[k] == squash(pre[k], lines) && (
                    pre[k] >> 40 == 0 ==> self.cols@[k] >> 40 == 0),
            decreases 10 - x,
        {
            self.cols[x] = clear_lines(self.cols[x], lines);
            x = x + 1;
        }
    }

    /// Count of set bits of `v`: the number of rows named by a line mask.
    pub fn count_bits(v: u64) -> (r: u32)
        ensures
            r == popcount(v),
    {
        let mut count: u32 = 0;
        let mut y: usize = 0;
        while y < 64
            invariant
                y <= 64,
                count == ones_below(v, y as int),
                count <= y,
            decreases 64 - y,
        {
            if v >> (y as u64) & 1 == 1 {
                count = count + 1;
            }
            y = y + 1;
        }
        count
    }
}

/// Mask of the cells of `piece` with index below `i` that fall in column `x`.
pub open spec fn cell_mask_below(piece: PieceLocation, x: int, i: int) -> u64
    decreases i,
{
    if i <= 0 {
        0u64
    } else {
        let c = piece.cell(i - 1);
        cell_mask_below(piece, x, i - 1) | (if c.0 == x {
            1u64 << (c.1 as u64)
        } else {
            0u64
        })
    }
}

/// Mask of the cells of `piece` that fall in column `x`.
pub open spec fn cell_mask(piece: PieceLocation, x: int) -> u64 {
    cell_mask_below(piece, x, 4)
}

/// The columns of `cols` with the four cells of `loc` filled.
pub open spec fn place_cols(cols: Seq<u64>, loc: PieceLocation) -> Seq<u64> {
    Seq::new(10, |x: int| cols[x] | cell_mask(loc, x))
}

/// The columns of `cols` with the rows of `lines` removed.
pub open spec fn squash_cols(cols: Seq<u64>, lines: u64) -> Seq<u64> {
    Seq::new(10, |x: int| squash(cols[x], lines))
}

impl PieceLocation {
    /// All four cells lie inside the ten-by-forty playfield.
    pub open spec fn cells_in_bounds(self) -> bool {
        forall|i: int|
            0 <= i < 4 ==> {
                let c = #[trigger] self.cell(i);
                0 <= c.0 < 10 && 0 <= c.1 < 40
            }
    }

    /// Some cell of the location is filled or out of bounds on `b`.
    pub open spec fn obstructed_spec(self, b: Board) -> bool {
        exists|i: int| 0 <= i < 4 && b.occ(self.cell(i).0, self.cell(i).1)
    }

    /// Whether any cell of this location collides with `board`.
    pub fn obstructed(&self, board: &Board) -> (r: bool)
        requires
            self.coords_in_range(),
        ensures
            r == self.obstructed_spec(*board),
    {
        let cells = self.cells();
        let r = board.occupied(cells[0]) || board.occupied(cells[1]) || board.occupied(cells[2])
            || board.occupied(cells[3]);
        proof {
            if !r {
                assert forall|i: int| 0 <= i < 4 implies !board.occ(
                    self.cell(i).0,
                    self.cell(i).1,
                ) by {
                    assert((cells@[i].0 as int, cells@[i].1 as int) == self.cell(i));
                }
            }
        }
        r
    }

    /// The least distance any of the four cells can fall.
    pub open spec fn drop_dist_spec(self, b: Board) -> int {
        let d0 = b.dist_to_ground(self.cell(0).0, self.cell(0).1);
        let d1 = b.dist_to_ground(self.cell(1).0, self.cell(1).1);
        let d2 = b.dist_to_ground(self.cell(2).0, self.cell(2).1);
        let d3 = b.dist_to_ground(self.cell(3).0, self.cell(3).1);
        let m01 = if d0 <= d1 {
            d0
        } else {
            d1
        };
        let m23 = if d2 <= d3 {
            d2
        } else {
            d3
        };
        if m01 <= m23 {
            m01
        } else {
            m23
        }
    }

    /// How far straight down the piece can fall from this location before a
    /// cell would rest on a filled cell or the floor.
    pub fn drop_distance(&self, board: &Board) -> (r: i8)
        requires
            self.coords_in_range(),
            self.cells_in_bounds(),
        ensures
            r == self.drop_dist_spec(*board),
            0 <= r < 40,
    {
        let cells = self.cells();
        let (x0, y0) = cells[0];
        let (x1, y1) = cells[1];
        let (x2, y2) = cells[2];
        let (x3, y3) = cells[3];
        proof {
            assert((cells@[0].0 as int, cells@[0].1 as int) == self.cell(0));
            assert((cells@[1].0 as int, cells@[1].1 as int) == self.cell(1));
            assert((cells@[2].0 as int, cells@[2].1 as int) == self.cell(2));
            assert((cells@[3].0 as int, cells@[3].1 as int) == self.cell(3));
        }
        let d0 = board.distance_to_ground(x0, y0);
        let d1 = board.distance_to_ground(x1, y1);
        let d2 = board.distance_to_ground(x2, y2);
        let d3 = board.distance_to_ground(x3, y3);
        let m01 = if d0 <= d1 {
            d0
        } else {
            d1
        };
        let m23 = if d2 <= d3 {
            d2
        } else {
            d3
        };
        if m01 <= m23 {
            m01
        } else {
            m23
        }
    }

    /// Every cell of the location lies at or above the top of its column's
    /// stack.
    pub open spec fn above_stack_spec(self, b: Board) -> bool {
        forall|i: int|
            0 <= i < 4 ==> {
                let c = #[trigger] self.cell(i);
                b.cols@[c.0] >> (c.1 as u64) == 0
            }
    }

    /// Whether the whole piece sits above the stack of every column it
    /// touches.
    pub fn above_stack(&self, board: &Board) -> (r: bool)
        requires
            self.coords_in_range(),
            self.cells_in_bounds(),
        ensures
            r == self.above_stack_spec(*board),
    {
        let cells = self.cells();
        proof {
            assert((cells@[0].0 as int, cells@[0].1 as int) == self.cell(0));
            assert((cells@[1].0 as int, cells@[1].1 as int) == self.cell(1));
            assert((cells@[2].0 as int, cells@[2].1 as int) == self.cell(2));
            assert((cells@[3].0 as int, cells@[3].1 as int) == self.cell(3));
        }
        let (x0, y0) = cells[0];
        let (x1, y1) = cells[1];
        let (x2, y2) = cells[2];
        let (x3, y3) = cells[3];
        let r = (board.cols[x0 as usize] >> (y0 as u64) == 0) && (board.cols[x1 as usize] >> (
        y1 as u64) == 0) && (board.cols[x2 as usize] >> (y2 as u64) == 0) && (board.cols[x3
            as usize] >> (y3 as u64) == 0);
        r
    }
}

/// The stack height of column `x`: one above its highest filled row.
pub open spec fn col_height(b: Board, x: int) -> int {
    64 - vstd::std_specs::bits::u64_leading_zeros(b.cols@[x])
}

/// A left-facing T slot at window position `x`: column `x + 1` lies below
/// column `x`, and column `x + 2` is filled beside and above the notch but
/// open at its height.
pub open spec fn tslot_left_cond(b: Board, x: int) -> bool {
    let y = col_height(b, x);
    &&& col_height(b, x + 1) < y
    &&& b.occ(x + 2, y - 1)
    &&& !b.occ(x + 2, y)
    &&& b.occ(x + 2, y + 1)
}

/// A right-facing T slot at window position `x`: column `x + 1` lies below
/// column `x + 2`, and column `x` is filled beside and above the notch but
/// open at its height.
pub open spec fn tslot_right_cond(b: Board, x: int) -> bool {
    let y = col_height(b, x + 2);
    &&& col_height(b, x + 1) < y
    &&& b.occ(x, y - 1)
    &&& !b.occ(x, y)
    &&& b.occ(x, y + 1)
}

/// The leftmost left-facing T slot of the board, as the location of the
/// upside-down T that fills it.
pub fn well_known_tslot_left(board: &Board) -> (r: Option<PieceLocation>)
    ensures
        match r {
            Some(loc) => exists|x: int|
                0 <= x < 8 && #[trigger] tslot_left_cond(*board, x) && loc == (PieceLocation {
                    piece: crate::data::Piece::T,
                    rotation: crate::data::Rotation::South,
                    x: (x + 1) as i8,
                    y: col_height(*board, x) as i8,
                }) && (forall|x2: int| 0 <= x2 < x ==> !tslot_left_cond(*board, x2)),
            None => forall|x: int| 0 <= x < 8 ==> !tslot_left_cond(*board, x),
        },
{
    let mut x: usize = 0;
    while x < 8
        invariant
            x <= 8,
            forall|x2: int| 0 <= x2 < x as int ==> !tslot_left_cond(*board, x2),
        decreases 8 - x,
    {
        let y: u32 = 64 - board.cols[x].leading_zeros();
        let y1: u32 = 64 - board.cols[x + 1].leading_zeros();
        if y1 < y && board.occupied((x as i8 + 2, y as i8 - 1)) && !board.occupied(
            (x as i8 + 2, y as i8),
        ) && board.occupied((x as i8 + 2, y as i8 + 1)) {
            proof {
                assert(tslot_left_cond(*board, x as int));
            }
            return Some(
                PieceLocation {
                    piece: crate::data::Piece::T,
                    rotation: crate::data::Rotation::South,
                    x: x as i8 + 1,
                    y: y as i8,
                },
            );
        }
        proof {
            assert(!tslot_left_cond(*board, x as int));
        }
        x = x + 1;
    }
    None
}

/// The leftmost right-facing T slot of the board, as the location of the
/// upside-down T that fills it.
pub fn well_known_tslot_right(board: &Board) -> (r: Option<PieceLocation>)
    ensures
        match r {
            Some(loc) => exists|x: int|
                0 <= x < 8 && #[trigger] tslot_right_cond(*board, x) && loc == (PieceLocation {
                    piece: crate::data::Piece::T,
                    rotation: crate::data::Rotation::South,
                    x: (x + 1) as i8,
                    y: col_height(*board, x + 2) as i8,
                }) && (forall|x2: int| 0 <= x2 < x ==> !tslot_right_cond(*board, x2)),
            None => forall|x: int| 0 <= x < 8 ==> !tslot_right_cond(*board, x),
        },
{
    let mut x: usize = 0;
    while x < 8
        invariant
            x <= 8,
            forall|x2: int| 0 <= x2 < x as int ==> !tslot_right_cond(*board, x2),
        decreases 8 - x,
    {
        let y: u32 = 64 - board.cols[x + 2].leading_zeros();
        let y1: u32 = 64 - board.cols[x + 1].leading_zeros();
        if y1 < y && board.occupied((x as i8, y as i8 - 1)) && !board.occupied((x as i8, y as i8))
            && board.occupied((x as i8, y as i8 + 1)) {
            proof {
                assert(tslot_right_cond(*board, x as int));
            }
            return Some(
                PieceLocation {
                    piece: crate::data::Piece::T,
                    rotation: crate::data::Rotation::South,
                    x: x as i8 + 1,
                    y: y as i8,
                },
            );
        }
        proof {
            assert(!tslot_right_cond(*board, x as int));
        }
        x = x + 1;
    }
    None
}

/// Helper for [`lemma_dist_to_ground`]: counting from `d` cells down.
proof fn lemma_drop_from(b: Board, x: int, y: int, d: int)
    requires
        0 <= d <= y,
    ensures
        d <= b.drop_from(x, y, d) <= y,
        forall|k: int| d < k <= b.drop_from(x, y, d) ==> !(#[trigger] b.occ(x, y - k)),
        b.drop_from(x, y, d) == y || b.occ(x, y - b.drop_from(x, y, d) - 1),
    decreases y - d,
{
    if y - d <= 0 {
    } else if b.occ(x, y - d - 1) {
    } else {
        lemma_drop_from(b, x, y, d + 1);
        assert(b.drop_from(x, y, d) == b.drop_from(x, y, d + 1));
        assert forall|k: int| d < k <= b.drop_from(x, y, d) implies !(#[trigger] b.occ(
            x,
            y - k,
        )) by {
            if k == d + 1 {
                assert(!b.occ(x, y - d - 1));
            }
        }
    }
}

/// What the ground distance of a cell means: every cell passed on the way
/// down is empty, and the fall stops at the floor or on a filled cell.
pub proof fn lemma_dist_to_ground(b: Board, x: int, y: int)
    requires
        0 <= y,
    ensures
        0 <= b.dist_to_ground(x, y) <= y,
        forall|k: int| 1 <= k <= b.dist_to_ground(x, y) ==> !(#[trigger] b.occ(x, y - k)),
        b.dist_to_ground(x, y) == y || b.occ(x, y - b.dist_to_ground(x, y) - 1),
{
    lemma_drop_from(b, x, y, 0);
}

/// Counting from anywhere along the empty run gives the same stop: the
/// ground distance does not depend on where below the cell the count began,
/// as long as it began above the stop.
proof fn lemma_drop_from_mid(b: Board, x: int, y: int, k: int)
    requires
        0 <= k <= b.dist_to_ground(x, y),
        0 <= y,
    ensures
        b.drop_from(x, y, k) == b.dist_to_ground(x, y),
    decreases b.dist_to_ground(x, y) - k,
{
    lemma_drop_from(b, x, y, 0);
    let dist = b.dist_to_ground(x, y);
    if k < dist {
        assert(!b.occ(x, y - (k + 1)));
        assert(b.drop_from(x, y, k) == b.drop_from(x, y, k + 1));
        lemma_drop_from_mid(b, x, y, k + 1);
    } else {
        if y - dist <= 0 {
        } else {
            assert(b.occ(x, y - dist - 1));
        }
    }
}

/// Shifting the starting cell down along its own empty run shortens the
/// ground distance by exactly the shift.
pub proof fn lemma_dist_shift(b: Board, x: int, y: int, k: int)
    requires
        0 <= k <= b.dist_to_ground(x, y),
        0 <= y,
    ensures
        b.dist_to_ground(x, y - k) == b.dist_to_ground(x, y) - k,
{
    lemma_drop_from_mid(b, x, y, k);
    lemma_drop_shift(b, x, y, k, k);
}

/// Helper for [`lemma_dist_shift`]: the count from depth `d` below `y`
/// mirrors the count from depth `d - k` below `y - k`.
proof fn lemma_drop_shift(b: Board, x: int, y: int, k: int, d: int)
    requires
        0 <= k <= d,
    ensures
        b.drop_from(x, y - k, d - k) == b.drop_from(x, y, d) - k,
    decreases y - d,
{
    if y - d <= 0 {
    } else if b.occ(x, y - d - 1) {
    } else {
        lemma_drop_shift(b, x, y, k, d + 1);
    }
}


/// With every cell of `piece` on a row below 40, the per-column masks have no
/// bits at row 40 or above.
proof fn lemma_cell_mask_below_low(piece: PieceLocation, x: int, i: int)
    requires
        forall|k: int|
            0 <= k < 4 ==> {
                let c = #[trigger] piece.cell(k);
                0 <= c.1 < 40
            },
        i <= 4,
    ensures
        cell_mask_below(piece, x, i) >> 40 == 0,
    decreases i,
{
    if i <= 0 {
        assert(0u64 >> 40 == 0) by (bit_vector);
    } else {
        lemma_cell_mask_below_low(piece, x, i - 1);
        let c = piece.cell(i - 1);
        let m = cell_mask_below(piece, x, i - 1);
        let yu = c.1 as u64;
        assert(m >> 40 == 0 && yu < 40 ==> (m | (1u64 << yu)) >> 40 == 0) by (bit_vector);
        assert(m >> 40 == 0 ==> (m | 0u64) >> 40 == 0) by (bit_vector);
    }
}

} // verus!
