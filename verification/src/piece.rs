//! Pieces: their cells on the bit board, movement, rotation with wall kicks,
//! and locking into the board with line clears.

use vstd::prelude::*;
use crate::shape::{Shape, Rotation, rotation_index, shape_index, spec_cw, spec_ccw};
use crate::board::{
    Board, BOARD_MASK, ROW_MASK, row_of, rows_of, stack, full_rows, open_rows, count_full, settled,
    rows_fit, lemma_open_rows_len, lemma_stack_bound, lemma_stack_append, lemma_fit_concat,
    lemma_stack_cells, lemma_sink_keeps_cells, lemma_stack_rows, lemma_inside_rows,
};
use vstd::arithmetic::power2::{pow2, lemma2_to64, lemma2_to64_rest, lemma_pow2_adds, lemma_pow2_strictly_increases, lemma_pow2_pos};
use vstd::bits::lemma_u64_shl_is_mul;
use crate::bits::{lemma_word_basics, popcount, lemma_popcount_shl, lemma_popcount_or_disjoint, lemma_halves};

verus! {

/// A piece of a given shape and rotation whose bounding corner sits at
/// `row`, `col` (row 0 is the bottom row, column 0 the leftmost).
#[derive(Clone, Copy, Debug, PartialEq, Eq, Structural, Hash, PartialOrd, Ord)]
pub struct Piece {
    pub shape: Shape,
    pub col: i8,
    pub row: i8,
    pub rotation: Rotation,
}

/// Cells of a shape in a rotation state, with its corner at bit 0.
pub open spec fn pattern(s: Shape, r: Rotation) -> u64 {
    match s {
        Shape::I => match r {
            Rotation::Zero => 0b1111,
            Rotation::Clockwise => 0b1000000000100000000010000000001,
            Rotation::Half => 0b1111,
            Rotation::ConterClockwise => 0b1000000000100000000010000000001,
        },
        Shape::J => match r {
            Rotation::Zero => 0b1_0000000111,
            Rotation::Clockwise => 0b11_0000000001_0000000001,
            Rotation::Half => 0b111_0000000100,
            Rotation::ConterClockwise => 0b1_0000000001_00000000011,
        },
        Shape::L => match r {
            Rotation::Zero => 0b100_0000000111,
            Rotation::Clockwise => 0b1_0000000001_0000000011,
            Rotation::Half => 0b111_0000000001,
            Rotation::ConterClockwise => 0b11_0000000010_0000000010,
        },
        Shape::O => 0b11_0000000011,
        Shape::S => match r {
            Rotation::Zero => 0b110_0000000011,
            Rotation::Clockwise => 0b1_0000000011_0000000010,
            Rotation::Half => 0b110_0000000011,
            Rotation::ConterClockwise => 0b1_0000000011_0000000010,
        },
        Shape::T => match r {
            Rotation::Zero => 0b10_0000000111,
            Rotation::Clockwise => 0b1_0000000011_0000000001,
            Rotation::Half => 0b111_0000000010,
            Rotation::ConterClockwise => 0b10_0000000011_0000000010,
        },
        Shape::Z => match r {
            Rotation::Zero => 0b11_0000000110,
            Rotation::Clockwise => 0b10_0000000011_0000000001,
            Rotation::Half => 0b110000000110,
            Rotation::ConterClockwise => 0b10_0000000011_0000000001,
        },
    }
}

/// Cells of a shape in a rotation state, with its corner at bit 0.
pub fn shape_pattern(s: Shape, r: Rotation) -> (p: u64)
    ensures
        p == pattern(s, r),
{
    match s {
        Shape::I => match r {
            Rotation::Zero => 0b1111,
            Rotation::Clockwise => 0b1000000000100000000010000000001,
            Rotation::Half => 0b1111,
            Rotation::ConterClockwise => 0b1000000000100000000010000000001,
        },
        Shape::J => match r {
            Rotation::Zero => 0b1_0000000111,
            Rotation::Clockwise => 0b11_0000000001_0000000001,
            Rotation::Half => 0b111_0000000100,
            Rotation::ConterClockwise => 0b1_0000000001_00000000011,
        },
        Shape::L => match r {
            Rotation::Zero => 0b100_0000000111,
            Rotation::Clockwise => 0b1_0000000001_0000000011,
            Rotation::Half => 0b111_0000000001,
            Rotation::ConterClockwise => 0b11_0000000010_0000000010,
        },
        Shape::O => 0b11_0000000011,
        Shape::S => match r {
            Rotation::Zero => 0b110_0000000011,
            Rotation::Clockwise => 0b1_0000000011_0000000010,
            Rotation::Half => 0b110_0000000011,
            Rotation::ConterClockwise => 0b1_0000000011_0000000010,
        },
        Shape::T => match r {
            Rotation::Zero => 0b10_0000000111,
            Rotation::Clockwise => 0b1_0000000011_0000000001,
            Rotation::Half => 0b111_0000000010,
            Rotation::ConterClockwise => 0b10_0000000011_0000000010,
        },
        Shape::Z => match r {
            Rotation::Zero => 0b11_0000000110,
            Rotation::Clockwise => 0b10_0000000011_0000000001,
            Rotation::Half => 0b110000000110,
            Rotation::ConterClockwise => 0b10_0000000011_0000000001,
        },
    }
}

/// The rightmost column the corner of a shape may take in a rotation state.
pub open spec fn max_col(s: Shape, r: Rotation) -> int {
    match s {
        Shape::I => if r == Rotation::Zero || r == Rotation::Half { 6 } else { 9 },
        Shape::O => 8,
        _ => if r == Rotation::Zero || r == Rotation::Half { 7 } else { 8 },
    }
}

/// The rightmost column the corner of a shape may take in a rotation state.
pub fn shape_max_col(s: Shape, r: Rotation) -> (c: i8)
    ensures
        c == max_col(s, r),
{
    match s {
        Shape::I => match r {
            Rotation::Zero | Rotation::Half => 6,
            _ => 9,
        },
        Shape::O => 8,
        _ => match r {
            Rotation::Zero | Rotation::Half => 7,
            _ => 8,
        },
    }
}

/// Wall-kick offsets `(col, row)` tried, in order, when turning clockwise out
/// of rotation state `ri`; `k` is the try number.
pub open spec fn kick(s: Shape, ri: int, k: int) -> (int, int) {
    match s {
        Shape::O => (0, 0),
        Shape::I => if ri == 0 {
            if k == 0 { (2, -2) } else if k == 1 { (0, -2) } else if k == 2 { (3, -2) }
            else if k == 3 { (0, -3) } else { (3, 0) }
        } else if ri == 1 {
            if k == 0 { (-2, 1) } else if k == 1 { (-3, 1) } else if k == 2 { (0, 1) }
            else if k == 3 { (-3, 3) } else { (0, 0) }
        } else if ri == 2 {
            if k == 0 { (1, -1) } else if k == 1 { (3, -1) } else if k == 2 { (0, -1) }
            else if k == 3 { (3, 0) } else { (0, -3) }
        } else {
            if k == 0 { (-1, 2) } else if k == 1 { (0, 2) } else if k == 2 { (-3, 2) }
            else if k == 3 { (0, 0) } else { (-3, 3) }
        },
        _ => if ri == 0 {
            if k == 0 { (1, -1) } else if k == 1 { (0, -1) } else if k == 2 { (0, 0) }
            else if k == 3 { (1, -3) } else { (0, -3) }
        } else if ri == 1 {
            if k == 0 { (-1, 0) } else if k == 1 { (0, 0) } else if k == 2 { (0, -1) }
            else if k == 3 { (-1, 2) } else { (0, 2) }
        } else if ri == 2 {
            if k == 0 { (0, 0) } else if k == 1 { (1, 0) } else if k == 2 { (1, 1) }
            else if k == 3 { (0, -2) } else { (1, -2) }
        } else {
            if k == 0 { (0, 1) } else if k == 1 { (-1, 1) } else if k == 2 { (-1, 0) }
            else if k == 3 { (0, 3) } else { (-1, 3) }
        },
    }
}

/// Wall-kick offsets `(col, row)` tried, in order, when turning clockwise out
/// of rotation state `ri`; `k` is the try number.
pub fn shape_kick(s: Shape, ri: u8, k: u8) -> (o: (i8, i8))
    requires
        ri < 4,
        k < 5,
    ensures
        o.0 == kick(s, ri as int, k as int).0,
        o.1 == kick(s, ri as int, k as int).1,
{
    match s {
        Shape::O => (0, 0),
        Shape::I => if ri == 0 {
            if k == 0 { (2, -2) } else if k == 1 { (0, -2) } else if k == 2 { (3, -2) }
            else if k == 3 { (0, -3) } else { (3, 0) }
        } else if ri == 1 {
            if k == 0 { (-2, 1) } else if k == 1 { (-3, 1) } else if k == 2 { (0, 1) }
            else if k == 3 { (-3, 3) } else { (0, 0) }
        } else if ri == 2 {
            if k == 0 { (1, -1) } else if k == 1 { (3, -1) } else if k == 2 { (0, -1) }
            else if k == 3 { (3, 0) } else { (0, -3) }
        } else {
            if k == 0 { (-1, 2) } else if k == 1 { (0, 2) } else if k == 2 { (-3, 2) }
            else if k == 3 { (0, 0) } else { (-3, 3) }
        },
        _ => if ri == 0 {
            if k == 0 { (1, -1) } else if k == 1 { (0, -1) } else if k == 2 { (0, 0) }
            else if k == 3 { (1, -3) } else { (0, -3) }
        } else if ri == 1 {
            if k == 0 { (-1, 0) } else if k == 1 { (0, 0) } else if k == 2 { (0, -1) }
            else if k == 3 { (-1, 2) } else { (0, 2) }
        } else if ri == 2 {
            if k == 0 { (0, 0) } else if k == 1 { (1, 0) } else if k == 2 { (1, 1) }
            else if k == 3 { (0, -2) } else { (1, -2) }
        } else {
            if k == 0 { (0, 1) } else if k == 1 { (-1, 1) } else if k == 2 { (-1, 0) }
            else if k == 3 { (0, 3) } else { (-1, 3) }
        },
    }
}

/// A corner position whose bit offset `10 * row + col` names a bit of a `u64`
/// (and whose `10 * row` fits an `i8`).
pub open spec fn offset_ok(row: int, col: int) -> bool {
    -12 <= row <= 12 && 0 <= 10 * row + col < 64
}

/// The piece's cells when its corner sits at `row`, `col` (cells that fall
/// past bit 63 are lost).
pub open spec fn cells_at(s: Shape, r: Rotation, row: int, col: int) -> u64 {
    pattern(s, r) << ((10 * row + col) as u64)
}


impl Piece {
    /// The same piece with its corner moved to `row`, `col`.
    pub open spec fn at(self, row: int, col: int) -> Piece {
        Piece { shape: self.shape, col: col as i8, row: row as i8, rotation: self.rotation }
    }

    /// The board cells the piece covers.
    pub open spec fn cells(self) -> u64 {
        cells_at(self.shape, self.rotation, self.row as int, self.col as int)
    }

    /// The piece covers a filled cell of `b`.
    pub open spec fn collides(self, b: Board) -> bool {
        self.cells() & b.0 != 0
    }

    /// The corner lies in the range where the whole piece fits the four
    /// rows and a two-row margin above them.
    pub open spec fn spec_in_bounds(self) -> bool {
        0 <= self.col <= max_col(self.shape, self.rotation) && 0 <= self.row <= 5
    }

    /// Where one step left takes the piece (it stays when blocked).
    pub open spec fn spec_left(self, b: Board) -> Piece {
        let n = self.at(self.row as int, self.col - 1);
        if self.col - 1 < 0 || n.collides(b) { self } else { n }
    }

    /// Where one step right takes the piece (it stays when blocked).
    pub open spec fn spec_right(self, b: Board) -> Piece {
        let n = self.at(self.row as int, self.col + 1);
        if self.col + 1 > max_col(self.shape, self.rotation) || n.collides(b) { self } else { n }
    }

    /// Where one step down takes the piece (it stays when blocked).
    pub open spec fn spec_down(self, b: Board) -> Piece {
        let n = self.at(self.row - 1, self.col as int);
        if self.row - 1 < 0 || n.collides(b) { self } else { n }
    }

    /// The piece rests on the floor or on filled cells, lies inside the four
    /// rows and covers at least one of their cells.
    pub open spec fn spec_can_place(self, b: Board) -> bool {
        &&& self.cells() & BOARD_MASK != 0
        &&& self.cells() & !BOARD_MASK == 0
        &&& self.spec_down(b) == self
    }

    /// The inputs on which `can_place` is defined: the cells of the piece and
    /// of the piece one row lower can be computed.
    pub open spec fn place_defined(self) -> bool {
        &&& offset_ok(self.row as int, self.col as int)
        &&& self.row >= 1 ==> offset_ok(self.row - 1, self.col as int)
    }

    /// The piece turned into rotation state `rot` with its corner at `row`,
    /// `col` lies in bounds and covers no filled cell of `b`.
    pub open spec fn fits_turned(self, rot: Rotation, row: int, col: int, b: Board) -> bool {
        &&& 0 <= col <= max_col(self.shape, rot)
        &&& 0 <= row <= 5
        &&& (cells_at(self.shape, rot, row, col) & b.0) == 0
    }

    /// The piece turned into rotation state `rot` with its corner at `row`, `col`.
    pub open spec fn turned(self, rot: Rotation, row: int, col: int) -> Piece {
        Piece { shape: self.shape, col: col as i8, row: row as i8, rotation: rot }
    }

    /// The board after the piece locks: its cells are filled, then full rows
    /// sink to the bottom while the other rows keep their order above them.
    pub open spec fn spec_place(self, b: Board) -> Board {
        Board(stack(settled(b.0 | self.cells())) as u64)
    }

    /// The inputs on which `place` is defined: `can_place` holds and the
    /// piece covers no filled cell.
    pub open spec fn place_ok(self, b: Board) -> bool {
        &&& self.place_defined()
        &&& self.spec_can_place(b)
        &&& self.cells() & b.0 == 0
    }

    /// The piece's state packed into 16 bits: rotation, shape, column, row,
    /// four bits each (from the top).
    pub open spec fn spec_pack(self) -> u16 {
        ((rotation_index(self.rotation) as u16) << 12u16) | ((shape_index(self.shape) as u16) << 8u16)
            | ((self.col as u16) << 4u16) | (self.row as u16)
    }

    /// Clockwise turn trying the kicks from number `k` on.
    pub open spec fn cw_from(self, b: Board, k: int) -> Piece
        decreases 5 - k,
    {
        if k >= 5 {
            self
        } else {
            let o = kick(self.shape, rotation_index(self.rotation) as int, k);
            let rot = spec_cw(self.rotation);
            if self.fits_turned(rot, self.row + o.1, self.col + o.0, b) {
                self.turned(rot, self.row + o.1, self.col + o.0)
            } else {
                self.cw_from(b, k + 1)
            }
        }
    }

    /// Counter-clockwise turn trying the kicks from number `k` on: the kicks
    /// of the clockwise turn into the current state, reversed.
    pub open spec fn ccw_from(self, b: Board, k: int) -> Piece
        decreases 5 - k,
    {
        if k >= 5 {
            self
        } else {
            let o = kick(self.shape, ((rotation_index(self.rotation) + 3) % 4) as int, k);
            let rot = spec_ccw(self.rotation);
            if self.fits_turned(rot, self.row - o.1, self.col - o.0, b) {
                self.turned(rot, self.row - o.1, self.col - o.0)
            } else {
                self.ccw_from(b, k + 1)
            }
        }
    }

    /// The piece a clockwise turn gives: the first kick that fits, or the
    /// piece unchanged.
    pub open spec fn spec_cw(self, b: Board) -> Piece {
        self.cw_from(b, 0)
    }

    /// The piece a counter-clockwise turn gives: the first kick that fits, or
    /// the piece unchanged.
    pub open spec fn spec_ccw(self, b: Board) -> Piece {
        self.ccw_from(b, 0)
    }
}

impl Piece {
    /// A new piece of `shape` in spawn position: unturned, corner at row 4, column 0.
    pub fn new(shape: Shape) -> (p: Piece)
        ensures
            p == (Piece { shape, col: 0, row: 4, rotation: Rotation::Zero }),
            p.spec_in_bounds(),
    {
        Piece { shape, col: 0, row: 4, rotation: Rotation::Zero }
    }

    /// Whether the piece's cells can be computed (`as_bits` is defined).
    pub fn offset_defined(self) -> (r: bool)
        ensures
            r == offset_ok(self.row as int, self.col as int),
    {
        let r = self.row as i16;
        let c = self.col as i16;
        -12 <= r && r <= 12 && 0 <= 10 * r + c && 10 * r + c < 64
    }

    /// The board cells the piece covers.
    pub fn as_bits(self) -> (bits: u64)
        requires
            offset_ok(self.row as int, self.col as int),
        ensures
            bits == self.cells(),
    {
        let shift = self.row * 10 + self.col;
        shape_pattern(self.shape, self.rotation) << (shift as u64)
    }

    /// The piece covers a filled cell of `board`.
    pub fn collides_in(self, board: Board) -> (r: bool)
        requires
            offset_ok(self.row as int, self.col as int),
        ensures
            r == self.collides(board),
    {
        (self.as_bits() & board.0) != 0
    }

    /// One step left, unless the wall or a filled cell is in the way.
    pub fn left(self, board: Board) -> (p: Piece)
        requires
            self.col > -128,
            self.col >= 1 ==> offset_ok(self.row as int, self.col - 1),
        ensures
            p == self.spec_left(board),
    {
        let mut new = self;
        new.col = new.col - 1;
        if (new.col < 0) || new.collides_in(board) {
            self
        } else {
            new
        }
    }

    /// One step right, unless the wall or a filled cell is in the way.
    pub fn right(self, board: Board) -> (p: Piece)
        requires
            self.col < 127,
            self.col + 1 <= max_col(self.shape, self.rotation) ==> offset_ok(self.row as int, self.col + 1),
        ensures
            p == self.spec_right(board),
    {
        let mut new = self;
        new.col = new.col + 1;
        let max_col = shape_max_col(self.shape, self.rotation);
        if (new.col > max_col) || new.collides_in(board) {
            self
        } else {
            new
        }
    }

    /// One step down, unless the floor or a filled cell is in the way.
    pub fn down(self, board: Board) -> (p: Piece)
        requires
            self.row > -128,
            self.row >= 1 ==> offset_ok(self.row - 1, self.col as int),
        ensures
            p == self.spec_down(board),
    {
        let mut new = self;
        new.row = new.row - 1;
        if (new.row < 0) || new.collides_in(board) {
            self
        } else {
            new
        }
    }

    /// The corner lies in the range where the whole piece fits the four rows
    /// and a two-row margin above them.
    pub fn in_bounds(self) -> (r: bool)
        ensures
            r == self.spec_in_bounds(),
    {
        let max_col = shape_max_col(self.shape, self.rotation);
        (self.col >= 0) && (self.col <= max_col) && (self.row >= 0) && (self.row <= 5)
    }

    /// The piece rests on the floor or on filled cells, lies inside the four
    /// rows and covers at least one of their cells.
    pub fn can_place(self, board: Board) -> (r: bool)
        requires
            self.place_defined(),
        ensures
            r == self.spec_can_place(board),
    {
        let bits = self.as_bits();
        ((bits & BOARD_MASK) != 0) && ((bits & !BOARD_MASK) == 0) && self.down(board) == self
    }

    /// Lock the piece into `board`: its cells are filled, then full rows sink
    /// to the bottom while the other rows keep their order above them.
    pub fn place(self, board: Board) -> (b: Board)
        requires
            self.place_ok(board),
        ensures
            b == self.spec_place(board),
            b.0 as int == stack(settled(board.0 | self.cells())),
            b.0 >> 40 == 0,
    {
        let ghost u = board.0 | self.cells();
        let mut unordered_board = board.0 | self.as_bits();
        let mut ordered_board: u64 = 0;
        let mut complete_lines: u64 = 0;
        let mut complete_lines_shift: u64 = 0;
        let mut j: u64 = 0;
        proof {
            lemma2_to64();
            lemma2_to64_rest();
            assert(rows_of(u).subrange(4, 4) =~= Seq::<u64>::empty());
            assert(full_rows(0) =~= Seq::<u64>::empty());
            lemma_word_basics(u, 0);
        }
        while j < 4
            invariant
                j <= 4,
                unordered_board == u << ((10 * j) as u64),
                ordered_board as int == stack(open_rows(rows_of(u).subrange(4 - j, 4))),
                complete_lines as int == stack(full_rows(count_full(rows_of(u).subrange(4 - j, 4)))),
                complete_lines_shift == 10 * count_full(rows_of(u).subrange(4 - j, 4)),
            decreases 4 - j,
        {
            let ghost sub = rows_of(u).subrange(4 - j, 4);
            let ghost x = row_of(u, 3 - j);
            proof {
                lemma_line_step(u, j);
                assert(30 - 10 * j == 10 * (3 - j));
                assert(rows_of(u).subrange(3 - j, 4) =~= seq![x] + sub);
                assert((seq![x] + sub).drop_first() =~= sub);
                lemma_rows_fit(u);
                assert(rows_fit(sub));
                lemma_open_rows_len(sub);
                lemma_stack_bound(open_rows(sub));
                lemma_stack_bound(full_rows(count_full(sub)));
                lemma2_to64();
                lemma2_to64_rest();
                if open_rows(sub).len() < 3 {
                    lemma_pow2_strictly_increases((10 * open_rows(sub).len()) as nat, 30);
                }
                if count_full(sub) < 3 {
                    lemma_pow2_strictly_increases((10 * count_full(sub)) as nat, 30);
                }
            }
            let this_line = (unordered_board >> 30) & 0b1111111111;
            assert(this_line == x);
            unordered_board = unordered_board << 10;
            if this_line == 0b1111111111 {
                proof {
                    lemma_push_row(complete_lines, this_line);
                    assert(full_rows(count_full(sub) + 1) =~= seq![ROW_MASK] + full_rows(count_full(sub)));
                    assert((seq![ROW_MASK] + full_rows(count_full(sub))).drop_first() =~= full_rows(count_full(sub)));
                }
                complete_lines = complete_lines << 10;
                complete_lines = complete_lines | this_line;
                complete_lines_shift = complete_lines_shift + 10;
            } else {
                proof {
                    lemma_push_row(ordered_board, this_line);
                    assert((seq![x] + open_rows(sub)).drop_first() =~= open_rows(sub));
                }
                ordered_board = ordered_board << 10;
                ordered_board = ordered_board | this_line;
            }
            j += 1;
        }
        let ghost all = rows_of(u).subrange(0, 4);
        proof {
            assert(all =~= rows_of(u));
            lemma_rows_fit(u);
            lemma_open_rows_len(all);
            let f = count_full(all);
            let nf = open_rows(all).len();
            lemma_stack_bound(open_rows(all));
            lemma_stack_bound(full_rows(f));
            lemma_pow2_adds((10 * nf) as nat, (10 * f) as nat);
            lemma2_to64();
            lemma2_to64_rest();
            assert(nf + f == 4);
            if f < 4 {
                lemma_pow2_strictly_increases((10 * f) as nat, 40);
            }
            assert(complete_lines_shift == 10 * f);
            assert(pow2((10 * f) as nat) <= pow2(40));
            assert(pow2(complete_lines_shift as nat) == pow2((10 * f) as nat));
            assert(1 * pow2(complete_lines_shift as nat) <= u64::MAX);
            lemma_u64_shl_is_mul(1, complete_lines_shift);
            assert(ordered_board * pow2((10 * f) as nat) < pow2((10 * nf + 10 * f) as nat)) by (nonlinear_arith)
                requires
                    ordered_board < pow2((10 * nf) as nat),
                    pow2((10 * nf + 10 * f) as nat) == pow2((10 * nf) as nat) * pow2((10 * f) as nat),
                    pow2((10 * f) as nat) > 0,
            ;
            if nf + f < 4 {
                lemma_pow2_strictly_increases((10 * nf + 10 * f) as nat, 40);
            }
            assert(ordered_board * pow2(complete_lines_shift as nat) <= u64::MAX);
            lemma_u64_shl_is_mul(ordered_board, complete_lines_shift);
            lemma_or_disjoint(ordered_board, complete_lines, complete_lines_shift);
            lemma_stack_append(full_rows(f), open_rows(all));
            assert(ordered_board * pow2((10 * f) as nat) + complete_lines < pow2(40)) by (nonlinear_arith)
                requires
                    ordered_board < pow2((10 * nf) as nat),
                    pow2(40) == pow2((10 * nf) as nat) * pow2((10 * f) as nat),
                    complete_lines < pow2((10 * f) as nat),
            ;
        }
        ordered_board = ordered_board << complete_lines_shift;
        ordered_board = ordered_board | complete_lines;
        proof {
            lemma_below_2_40(ordered_board);
        }
        Board(ordered_board)
    }

    /// The piece's state packed into 16 bits: rotation, shape, column, row,
    /// four bits each (from the top).
    pub fn pack(self) -> (r: u16)
        ensures
            r == self.spec_pack(),
    {
        ((self.rotation.index() as u16) << 12) | ((self.shape.index() as u16) << 8) | ((self.col as u16)
            << 4) | (self.row as u16)
    }

    /// Turn a quarter clockwise, trying the wall kicks in order.
    pub fn cw(self, board: Board) -> (p: Piece)
        ensures
            p == self.spec_cw(board),
    {
        let rotation = self.rotation.cw();
        let ri = self.rotation.index();
        let mut k: u8 = 0;
        while k < 5
            invariant
                k <= 5,
                ri == rotation_index(self.rotation),
                rotation == spec_cw(self.rotation),
                self.spec_cw(board) == self.cw_from(board, k as int),
            decreases 5 - k,
        {
            let (kick_col, kick_row) = shape_kick(self.shape, ri, k);
            let col: i16 = self.col as i16 + kick_col as i16;
            let row: i16 = self.row as i16 + kick_row as i16;
            let max_col = shape_max_col(self.shape, rotation);
            if 0 <= col && col <= max_col as i16 && 0 <= row && row <= 5 {
                let new = Piece { shape: self.shape, col: col as i8, row: row as i8, rotation };
                if !new.collides_in(board) {
                    return new;
                }
            }
            k = k + 1;
        }
        self
    }

    /// Turn a quarter counter-clockwise, trying the clockwise kicks into the
    /// current state in reverse, in order.
    pub fn ccw(self, board: Board) -> (p: Piece)
        ensures
            p == self.spec_ccw(board),
    {
        let rotation = self.rotation.ccw();
        let ri = (self.rotation.index() + 3) % 4;
        let mut k: u8 = 0;
        while k < 5
            invariant
                k <= 5,
                ri == (rotation_index(self.rotation) + 3) % 4,
                rotation == spec_ccw(self.rotation),
                self.spec_ccw(board) == self.ccw_from(board, k as int),
            decreases 5 - k,
        {
            let (kick_col, kick_row) = shape_kick(self.shape, ri, k);
            let col: i16 = self.col as i16 - kick_col as i16;
            let row: i16 = self.row as i16 - kick_row as i16;
            let max_col = shape_max_col(self.shape, rotation);
            if 0 <= col && col <= max_col as i16 && 0 <= row && row <= 5 {
                let new = Piece { shape: self.shape, col: col as i8, row: row as i8, rotation };
                if !new.collides_in(board) {
                    return new;
                }
            }
            k = k + 1;
        }
        self
    }
}


/// A piece that is in bounds and, where it could lock, covers no filled
/// cell: the pieces the placement search keeps.
pub open spec fn sound_on(p: Piece, b: Board) -> bool {
    p.spec_in_bounds() && (p.spec_can_place(b) ==> p.cells() & b.0 == 0)
}

/// Every move (left, right, down, either turn) of a piece that is in bounds
/// gives either the piece itself or an in-bounds piece of the same shape
/// that covers no filled cell.
pub proof fn lemma_moves_stay_sound(p: Piece, b: Board)
    requires
        sound_on(p, b),
    ensures
        sound_on(p.spec_left(b), b),
        sound_on(p.spec_right(b), b),
        sound_on(p.spec_down(b), b),
        sound_on(p.spec_cw(b), b),
        sound_on(p.spec_ccw(b), b),
        p.spec_left(b).shape == p.shape,
        p.spec_right(b).shape == p.shape,
        p.spec_down(b).shape == p.shape,
        p.spec_cw(b).shape == p.shape,
        p.spec_ccw(b).shape == p.shape,
{
    lemma_cw_from_sound(p, b, 0);
    lemma_ccw_from_sound(p, b, 0);
}

/// Every move of a piece that is in bounds gives a piece in bounds.
pub proof fn lemma_moves_in_bounds(p: Piece, b: Board)
    requires
        p.spec_in_bounds(),
    ensures
        p.spec_left(b).spec_in_bounds(),
        p.spec_right(b).spec_in_bounds(),
        p.spec_down(b).spec_in_bounds(),
        p.spec_cw(b).spec_in_bounds(),
        p.spec_ccw(b).spec_in_bounds(),
{
    lemma_turns_in_bounds(p, b, 0);
}

proof fn lemma_turns_in_bounds(p: Piece, b: Board, k: int)
    requires
        p.spec_in_bounds(),
    ensures
        p.cw_from(b, k).spec_in_bounds(),
        p.ccw_from(b, k).spec_in_bounds(),
    decreases 5 - k,
{
    if k < 5 {
        lemma_turns_in_bounds(p, b, k + 1);
    }
}

/// A turn either leaves the piece as it is or gives the piece of the same
/// shape in the next rotation state (clockwise or counter-clockwise), in
/// bounds and over no filled cell.
pub proof fn lemma_turns_fit(p: Piece, b: Board)
    requires
        p.spec_in_bounds(),
    ensures
        p.spec_cw(b).shape == p.shape,
        p.spec_cw(b) == p || {
            &&& p.spec_cw(b).rotation == spec_cw(p.rotation)
            &&& p.spec_cw(b).spec_in_bounds()
            &&& p.spec_cw(b).cells() & b.0 == 0
        },
        p.spec_ccw(b).shape == p.shape,
        p.spec_ccw(b) == p || {
            &&& p.spec_ccw(b).rotation == spec_ccw(p.rotation)
            &&& p.spec_ccw(b).spec_in_bounds()
            &&& p.spec_ccw(b).cells() & b.0 == 0
        },
{
    lemma_turns_fit_from(p, b, 0);
}

proof fn lemma_turns_fit_from(p: Piece, b: Board, k: int)
    requires
        p.spec_in_bounds(),
    ensures
        p.cw_from(b, k).shape == p.shape,
        p.cw_from(b, k) == p || {
            &&& p.cw_from(b, k).rotation == spec_cw(p.rotation)
            &&& p.cw_from(b, k).spec_in_bounds()
            &&& p.cw_from(b, k).cells() & b.0 == 0
        },
        p.ccw_from(b, k).shape == p.shape,
        p.ccw_from(b, k) == p || {
            &&& p.ccw_from(b, k).rotation == spec_ccw(p.rotation)
            &&& p.ccw_from(b, k).spec_in_bounds()
            &&& p.ccw_from(b, k).cells() & b.0 == 0
        },
    decreases 5 - k,
{
    if k < 5 {
        lemma_turns_fit_from(p, b, k + 1);
    }
}

/// A counter-clockwise turn undoes a clockwise turn that took the first
/// kick, from a piece in bounds over no filled cell.
pub proof fn lemma_ccw_undoes_cw(p: Piece, b: Board)
    requires
        p.spec_in_bounds(),
        p.cells() & b.0 == 0,
        p.spec_cw(b) == p.turned(
            spec_cw(p.rotation),
            p.row + kick(p.shape, rotation_index(p.rotation) as int, 0).1,
            p.col + kick(p.shape, rotation_index(p.rotation) as int, 0).0,
        ),
    ensures
        p.spec_cw(b).spec_ccw(b) == p,
{
    let q = p.spec_cw(b);
    lemma_turns_fit(p, b);
    crate::shape::lemma_rotation_inverse(p.rotation);
    assert(q != p);
    let o = kick(p.shape, rotation_index(p.rotation) as int, 0);
    assert((rotation_index(q.rotation) + 3) % 4 == rotation_index(p.rotation));
    assert(q.row - o.1 == p.row && q.col - o.0 == p.col);
    assert(q.fits_turned(p.rotation, p.row as int, p.col as int, b));
    assert(q.ccw_from(b, 0) == q.turned(p.rotation, p.row as int, p.col as int));
}

proof fn lemma_cw_from_sound(p: Piece, b: Board, k: int)
    requires
        sound_on(p, b),
    ensures
        sound_on(p.cw_from(b, k), b),
        p.cw_from(b, k).shape == p.shape,
    decreases 5 - k,
{
    if k < 5 {
        lemma_cw_from_sound(p, b, k + 1);
    }
}

proof fn lemma_ccw_from_sound(p: Piece, b: Board, k: int)
    requires
        sound_on(p, b),
    ensures
        sound_on(p.ccw_from(b, k), b),
        p.ccw_from(b, k).shape == p.shape,
    decreases 5 - k,
{
    if k < 5 {
        lemma_ccw_from_sound(p, b, k + 1);
    }
}

/// A piece in bounds meets what every move, `can_place` and the packing
/// into the visited table need.
pub proof fn lemma_in_bounds_defined(p: Piece)
    requires
        p.spec_in_bounds(),
    ensures
        p.place_defined(),
        offset_ok(p.row as int, p.col as int),
        p.col >= 1 ==> offset_ok(p.row as int, p.col - 1),
        p.col + 1 <= max_col(p.shape, p.rotation) ==> offset_ok(p.row as int, p.col + 1),
        p.row >= 1 ==> offset_ok(p.row - 1, p.col as int),
        p.spec_pack() < 0x4000,
{
    let r = rotation_index(p.rotation) as u16;
    let s = shape_index(p.shape) as u16;
    let c = p.col as u16;
    let w = p.row as u16;
    assert(r < 4 && s < 7 && c < 10 && w < 6);
    assert(r < 4 && s < 7 && c < 10 && w < 6 ==> ((r << 12u16) | (s << 8u16) | (c << 4u16) | w)
        < 0x4000) by (bit_vector);
}

/// Pieces with a column from 0 to 9 and a row from 0 to 5 pack below
/// 0x4000, and two of them pack to the same number exactly when they are
/// the same piece: the packing is an index into a table of 0x4000 states.
pub proof fn lemma_pack_injective(p: Piece, q: Piece)
    requires
        0 <= p.col <= 9,
        0 <= p.row <= 5,
        0 <= q.col <= 9,
        0 <= q.row <= 5,
    ensures
        p.spec_pack() < 0x4000,
        q.spec_pack() < 0x4000,
        (p.spec_pack() == q.spec_pack()) == (p == q),
{
    let r1 = rotation_index(p.rotation) as u16;
    let s1 = shape_index(p.shape) as u16;
    let c1 = p.col as u16;
    let w1 = p.row as u16;
    let r2 = rotation_index(q.rotation) as u16;
    let s2 = shape_index(q.shape) as u16;
    let c2 = q.col as u16;
    let w2 = q.row as u16;
    assert(r1 < 4 && s1 < 7 && c1 < 10 && w1 < 6 && r2 < 4 && s2 < 7 && c2 < 10 && w2 < 6 ==> ((r1
        << 12u16) | (s1 << 8u16) | (c1 << 4u16) | w1) < 0x4000 && ((r2 << 12u16) | (s2 << 8u16) | (c2
        << 4u16) | w2) < 0x4000 && (((r1 << 12u16) | (s1 << 8u16) | (c1 << 4u16) | w1) == ((r2 << 12u16)
        | (s2 << 8u16) | (c2 << 4u16) | w2) ==> r1 == r2 && s1 == s2 && c1 == c2 && w1 == w2))
        by (bit_vector);
    crate::shape::lemma_shape_index_bijective(p.shape);
    crate::shape::lemma_shape_index_bijective(q.shape);
    if p.spec_pack() == q.spec_pack() {
        lemma_rotation_index_injective(p.rotation, q.rotation);
    }
}

proof fn lemma_rotation_index_injective(a: Rotation, b: Rotation)
    requires
        rotation_index(a) == rotation_index(b),
    ensures
        a == b,
{
}

/// The patterns the shapes take in their rotation states.
pub open spec fn is_pattern(c: u64) -> bool {
    c == 0xfu64 || c == 0x40100401u64 || c == 0x407u64 || c == 0x300401u64 || c == 0x1c04u64 || c == 0x200803u64 || c == 0x1007u64 || c == 0x100403u64 || c == 0x1c01u64 || c == 0x300802u64 || c == 0xc03u64 || c == 0x1803u64 || c == 0x100c02u64 || c == 0x807u64 || c == 0x100c01u64 || c == 0x1c02u64 || c == 0x200c02u64 || c == 0xc06u64 || c == 0x200c01u64
}

/// Every shape in every rotation state is one of the listed patterns.
proof fn lemma_pattern_listed(s: Shape, r: Rotation)
    ensures
        is_pattern(pattern(s, r)),
{
}

/// Each pattern covers four cells.
proof fn lemma_pattern_cells(c: u64)
    requires
        is_pattern(c),
    ensures
        popcount(c) == 4,
{
    lemma_pattern_cells_0();
    lemma_pattern_cells_1();
    lemma_pattern_cells_2();
    lemma_pattern_cells_3();
    lemma_pattern_cells_4();
}

#[verifier::spinoff_prover]
proof fn lemma_pattern_cells_0()
    ensures
        popcount(0xfu64) == 4,
        popcount(0x40100401u64) == 4,
        popcount(0x407u64) == 4,
        popcount(0x300401u64) == 4,
{
    assert(popcount(0xfu64) == 4) by {
        reveal_with_fuel(popcount, 32);
    }
    assert(popcount(0x40100401u64) == 4) by {
        reveal_with_fuel(popcount, 32);
    }
    assert(popcount(0x407u64) == 4) by {
        reveal_with_fuel(popcount, 32);
    }
    assert(popcount(0x300401u64) == 4) by {
        reveal_with_fuel(popcount, 32);
    }
}

#[verifier::spinoff_prover]
proof fn lemma_pattern_cells_1()
    ensures
        popcount(0x1c04u64) == 4,
        popcount(0x200803u64) == 4,
        popcount(0x1007u64) == 4,
        popcount(0x100403u64) == 4,
{
    assert(popcount(0x1c04u64) == 4) by {
        reveal_with_fuel(popcount, 32);
    }
    assert(popcount(0x200803u64) == 4) by {
        reveal_with_fuel(popcount, 32);
    }
    assert(popcount(0x1007u64) == 4) by {
        reveal_with_fuel(popcount, 32);
    }
    assert(popcount(0x100403u64) == 4) by {
        reveal_with_fuel(popcount, 32);
    }
}

#[verifier::spinoff_prover]
proof fn lemma_pattern_cells_2()
    ensures
        popcount(0x1c01u64) == 4,
        popcount(0x300802u64) == 4,
        popcount(0xc03u64) == 4,
        popcount(0x1803u64) == 4,
{
    assert(popcount(0x1c01u64) == 4) by {
        reveal_with_fuel(popcount, 32);
    }
    assert(popcount(0x300802u64) == 4) by {
        reveal_with_fuel(popcount, 32);
    }
    assert(popcount(0xc03u64) == 4) by {
        reveal_with_fuel(popcount, 32);
    }
    assert(popcount(0x1803u64) == 4) by {
        reveal_with_fuel(popcount, 32);
    }
}

#[verifier::spinoff_prover]
proof fn lemma_pattern_cells_3()
    ensures
        popcount(0x100c02u64) == 4,
        popcount(0x807u64) == 4,
        popcount(0x100c01u64) == 4,
        popcount(0x1c02u64) == 4,
{
    assert(popcount(0x100c02u64) == 4) by {
        reveal_with_fuel(popcount, 32);
    }
    assert(popcount(0x807u64) == 4) by {
        reveal_with_fuel(popcount, 32);
    }
    assert(popcount(0x100c01u64) == 4) by {
        reveal_with_fuel(popcount, 32);
    }
    assert(popcount(0x1c02u64) == 4) by {
        reveal_with_fuel(popcount, 32);
    }
}

#[verifier::spinoff_prover]
proof fn lemma_pattern_cells_4()
    ensures
        popcount(0x200c02u64) == 4,
        popcount(0xc06u64) == 4,
        popcount(0x200c01u64) == 4,
{
    assert(popcount(0x200c02u64) == 4) by {
        reveal_with_fuel(popcount, 32);
    }
    assert(popcount(0xc06u64) == 4) by {
        reveal_with_fuel(popcount, 32);
    }
    assert(popcount(0x200c01u64) == 4) by {
        reveal_with_fuel(popcount, 32);
    }
}

/// A pattern shifted up that stays inside the four rows lost no cell on
/// the way.
proof fn lemma_pattern_fits(c: u64, s: u64)
    by (bit_vector)
    requires
        is_pattern(c),
        s < 64,
        c << s != 0,
        (c << s) & !0b1111111111_1111111111_1111111111_1111111111u64 == 0,
    ensures
        c <= (0b1111111111_1111111111_1111111111_1111111111u64 >> s),
{
}

/// A piece that lies inside the four rows covers four of their cells.
pub proof fn lemma_piece_cells(p: Piece)
    requires
        offset_ok(p.row as int, p.col as int),
        p.cells() != 0,
        p.cells() & !BOARD_MASK == 0,
    ensures
        popcount(p.cells()) == 4,
        p.cells() >> 40u64 == 0,
{
    let c = pattern(p.shape, p.rotation);
    let s = (10 * p.row + p.col) as u64;
    lemma_pattern_listed(p.shape, p.rotation);
    lemma_pattern_cells(c);
    lemma_pattern_fits(c, s);
    vstd::bits::lemma_u64_shr_is_div(BOARD_MASK, s);
    lemma_pow2_pos(s as nat);
    let q = pow2(s as nat);
    assert(c * q <= BOARD_MASK) by (nonlinear_arith)
        requires
            c <= BOARD_MASK as nat / q,
            q > 0,
    ;
    lemma_popcount_shl(c, s);
    lemma_u64_shl_is_mul(c, s);
    lemma_word_basics(p.cells(), 0);
}

/// Locking a piece into a board that lies inside the four rows adds the
/// piece's four cells: sinking full rows neither makes nor loses a cell.
pub proof fn lemma_place_adds_four_cells(p: Piece, b: Board)
    requires
        p.place_ok(b),
        b.0 >> 40u64 == 0,
    ensures
        popcount(p.spec_place(b).0) == popcount(b.0) + 4,
        popcount(p.spec_place(b).0 & BOARD_MASK) == popcount(b.0 & BOARD_MASK) + 4,
{
    let c = p.cells();
    lemma_word_basics(c, 0);
    lemma_halves(c, BOARD_MASK);
    lemma_halves(c, b.0);
    lemma_piece_cells(p);
    let u = b.0 | c;
    lemma_popcount_or_disjoint(c, b.0);
    lemma_inside_rows(b.0, c);
    lemma_rows_fit(u);
    lemma_open_rows_len(rows_of(u));
    let rows = rows_of(u);
    let st = settled(u);
    assert(rows_fit(full_rows(count_full(rows))));
    lemma_fit_concat(full_rows(count_full(rows)), open_rows(rows));
    lemma_stack_cells(st);
    lemma_stack_cells(rows);
    lemma_sink_keeps_cells(rows);
    lemma_stack_rows(u);
    let r = p.spec_place(b).0;
    lemma_stack_bound(st);
    lemma2_to64();
    lemma2_to64_rest();
    lemma_word_basics(r, 0);
    lemma_word_basics(b.0, 0);
    assert(r & BOARD_MASK == r && b.0 & BOARD_MASK == b.0) by {
        let y = b.0;
        assert(r >> 40u64 == 0 && y >> 40u64 == 0 ==> r & BOARD_MASK == r && y & BOARD_MASK == y)
            by (bit_vector);
    }
}

/// Reading the top row of `u` shifted up by `j` rows gives row `3 - j` of `u`.
proof fn lemma_line_step(u: u64, j: u64)
    by (bit_vector)
    requires
        j < 4,
    ensures
        ((u << ((10 * j) as u64)) >> 30) & 1023 == (u >> ((30 - 10 * j) as u64)) & 1023,
        (u << ((10 * j) as u64)) << 10 == u << ((10 * (j + 1)) as u64),
{
}

/// Every row of a number fits ten bits.
pub proof fn lemma_rows_fit(u: u64)
    ensures
        rows_fit(rows_of(u)),
{
    lemma_mask_small(u >> 0u64);
    lemma_mask_small(u >> 10u64);
    lemma_mask_small(u >> 20u64);
    lemma_mask_small(u >> 30u64);
}

proof fn lemma_mask_small(x: u64)
    by (bit_vector)
    ensures
        x & 1023 < 1024,
{
}

/// Pushing a ten-bit row under a number.
proof fn lemma_push_row(x: u64, l: u64)
    by (bit_vector)
    requires
        l < 1024,
        x < 0x4000_0000,
    ensures
        (x << 10) | l == x * 1024 + l,
{
}

/// Or-ing a number below `2^s` into one shifted up by `s` adds it.
proof fn lemma_or_disjoint(x: u64, c: u64, s: u64)
    by (bit_vector)
    requires
        s < 64,
        c < (1u64 << s),
    ensures
        (x << s) | c == (x << s) + c,
{
}

/// A number below `2^40` has no bits from bit 40 up.
proof fn lemma_below_2_40(x: u64)
    requires
        x < 0x100_0000_0000,
    ensures
        x >> 40 == 0,
{
    lemma_word_basics(x, 0);
}

} // verus!
