//! The bit board: four rows of ten cells, cell `(row, col)` at bit `10 * row + col`.

use vstd::prelude::*;
use vstd::arithmetic::power2::{pow2, lemma_pow2_adds, lemma2_to64};
use vstd::arithmetic::mul::lemma_mul_is_associative;
use vstd::arithmetic::power2::{lemma2_to64_rest, lemma_pow2_strictly_increases};
use vstd::bits::lemma_u64_shl_is_mul;
use crate::bits::{
    popcount, count_ones, lemma_popcount_max, lemma_popcount_or_disjoint, lemma_popcount_shl, lemma_and_shifted_mask,
    lemma_xor_shl, lemma_shl_shl, lemma_xor_below, lemma_and_le, lemma_word_basics,
};

verus! {

/// A field of four rows of ten cells; bit `10 * row + col` is set when the
/// cell in row `row` (from the bottom) and column `col` (from the left) is filled.
#[derive(Clone, Copy, Debug, PartialEq, Eq, Structural, Hash, PartialOrd, Ord)]
pub struct Board(pub u64);

/// All forty cells of the four rows.
pub const BOARD_MASK: u64 = 0b1111111111_1111111111_1111111111_1111111111;

/// One full row of ten cells.
pub const ROW_MASK: u64 = 0b1111111111;

/// One cell in each of the four rows, in column 0.
pub const COL_MASK: u64 = 0b0000000001_0000000001_0000000001_0000000001;

/// Bit `i` of `x` (false for any `i` outside `0..64`).
pub open spec fn bit(x: u64, i: int) -> bool {
    0 <= i < 64 && (x >> (i as u64)) & 1 == 1
}

/// Row `k` of `x`: its ten cells as a number below `2^10`.
pub open spec fn row_of(x: u64, k: int) -> u64 {
    (x >> ((10 * k) as u64)) & ROW_MASK
}

/// Row `k` of `x` is filled in all ten cells.
pub open spec fn row_full(x: u64, k: int) -> bool {
    row_of(x, k) == ROW_MASK
}


/// The four rows of `x`, bottom row first.
pub open spec fn rows_of(x: u64) -> Seq<u64> {
    seq![row_of(x, 0), row_of(x, 1), row_of(x, 2), row_of(x, 3)]
}

/// The number whose rows, bottom first, are `rows` (each below `2^10`).
pub open spec fn stack(rows: Seq<u64>) -> int
    decreases rows.len(),
{
    if rows.len() == 0 {
        0
    } else {
        rows[0] + 1024 * stack(rows.drop_first())
    }
}

/// `n` full rows.
pub open spec fn full_rows(n: nat) -> Seq<u64> {
    Seq::new(n, |i: int| ROW_MASK)
}

/// The rows of `rows` that are not full, in their order.
pub open spec fn open_rows(rows: Seq<u64>) -> Seq<u64>
    decreases rows.len(),
{
    if rows.len() == 0 {
        rows
    } else if rows[0] == ROW_MASK {
        open_rows(rows.drop_first())
    } else {
        seq![rows[0]] + open_rows(rows.drop_first())
    }
}

/// How many of `rows` are full.
pub open spec fn count_full(rows: Seq<u64>) -> nat
    decreases rows.len(),
{
    if rows.len() == 0 {
        0
    } else if rows[0] == ROW_MASK {
        1 + count_full(rows.drop_first())
    } else {
        count_full(rows.drop_first())
    }
}

/// The rows of `x` after the full ones have sunk to the bottom, the others
/// keeping their order above them.
pub open spec fn settled(x: u64) -> Seq<u64> {
    full_rows(count_full(rows_of(x))) + open_rows(rows_of(x))
}

/// Every row value fits ten bits.
pub open spec fn rows_fit(rows: Seq<u64>) -> bool {
    forall|i: int| 0 <= i < rows.len() ==> rows[i] < 1024
}

pub proof fn lemma_open_rows_len(rows: Seq<u64>)
    ensures
        open_rows(rows).len() + count_full(rows) == rows.len(),
        rows_fit(rows) ==> rows_fit(open_rows(rows)),
    decreases rows.len(),
{
    if rows.len() > 0 {
        lemma_open_rows_len(rows.drop_first());
        if rows[0] != ROW_MASK {
            let r = seq![rows[0]] + open_rows(rows.drop_first());
            assert forall|i: int| rows_fit(rows) && 0 <= i < r.len() implies r[i] < 1024 by {
                if i > 0 {
                    assert(r[i] == open_rows(rows.drop_first())[i - 1]);
                }
            }
        }
    }
}

/// A stack of rows that fit ten bits each fits `10 * len` bits.
pub proof fn lemma_stack_bound(rows: Seq<u64>)
    requires
        rows_fit(rows),
    ensures
        0 <= stack(rows) < pow2((10 * rows.len()) as nat),
    decreases rows.len(),
{
    lemma2_to64();
    if rows.len() == 0 {
    } else {
        let rest = rows.drop_first();
        lemma_stack_bound(rest);
        let m = (10 * rest.len()) as nat;
        lemma_pow2_adds(m, 10);
        assert(pow2((m + 10) as nat) == pow2(m) * 1024);
        assert(10 * rows.len() == m + 10);
        assert(stack(rows) == rows[0] + 1024 * stack(rest));
        assert(stack(rows) < 1024 + 1024 * (pow2(m) - 1)) by (nonlinear_arith)
            requires
                stack(rows) == rows[0] + 1024 * stack(rest),
                rows[0] < 1024,
                stack(rest) < pow2(m),
        ;
    }
}

/// Stacking `a` under `b` puts `b` ten bits higher per row of `a`.
pub proof fn lemma_stack_append(a: Seq<u64>, b: Seq<u64>)
    ensures
        stack(a + b) == stack(a) + pow2((10 * a.len()) as nat) * stack(b),
    decreases a.len(),
{
    lemma2_to64();
    if a.len() == 0 {
        assert(a + b =~= b);
        let p = pow2((10 * a.len()) as nat);
        assert(p == 1);
        assert(p * stack(b) == stack(b)) by (nonlinear_arith)
            requires
                p == 1,
        ;
    } else {
        let a1 = a.drop_first();
        assert((a + b).drop_first() =~= a1 + b);
        lemma_stack_append(a1, b);
        let m = (10 * a1.len()) as nat;
        lemma_pow2_adds(m, 10);
        assert(10 * a.len() == m + 10);
        lemma_mul_is_associative(1024, pow2(m) as int, stack(b));
        assert((a + b)[0] == a[0]);
        assert(stack(a + b) == a[0] + 1024 * stack(a1 + b));
        assert(stack(a) == a[0] + 1024 * stack(a1));
        assert(stack(a + b) == stack(a) + 1024 * (pow2(m) * stack(b)));
        assert(pow2((m + 10) as nat) == pow2(m) * 1024);
        let p = pow2((10 * a.len()) as nat);
        assert(p == 1024 * pow2(m));
        assert(p * stack(b) == (1024 * pow2(m)) * stack(b));
    }
}


/// The row under row `k` of `x`, where a full floor lies under row 0.
pub open spec fn row_below(x: u64, k: int) -> u64 {
    if k <= 0 { ROW_MASK } else { row_of(x, k - 1) }
}

/// Cells that differ from the cell right under them, in rows `0..n`.
pub open spec fn row_transitions_upto(x: u64, n: int) -> nat
    decreases n,
{
    if n <= 0 {
        0
    } else {
        row_transitions_upto(x, n - 1) + popcount(row_of(x, n - 1) ^ row_below(x, n - 1))
    }
}

/// Column `c` of `x`: its four cells at bits 0, 10, 20 and 30.
pub open spec fn col_of(x: u64, c: int) -> u64 {
    (x >> (c as u64)) & COL_MASK
}

/// Column `c` of `x`, with full walls as columns -1 and 10.
pub open spec fn walled_col(x: u64, c: int) -> u64 {
    if 0 <= c < 10 { col_of(x, c) } else { COL_MASK }
}

/// Cells that differ from the cell to their left, in columns `0..n`, with
/// full walls as columns -1 and 10.
pub open spec fn col_transitions_upto(x: u64, n: int) -> nat
    decreases n,
{
    if n <= 0 {
        0
    } else {
        col_transitions_upto(x, n - 1) + popcount(walled_col(x, n - 1) ^ walled_col(x, n - 2))
    }
}

/// The number of bottom rows (up to three) that are full.
pub open spec fn spec_lines_cleared(x: u64) -> int {
    if row_full(x, 0) && row_full(x, 1) && row_full(x, 2) {
        3
    } else if row_full(x, 0) && row_full(x, 1) {
        2
    } else if row_full(x, 0) {
        1
    } else {
        0
    }
}

/// The number of pieces whose cells fill the board's cells.
pub open spec fn spec_piece_placed(x: u64) -> int {
    popcount(x & BOARD_MASK) as int / 4
}

/// The heuristic score of a board for the search (higher is better).
pub open spec fn spec_evaluate(x: u64) -> int {
    2 * spec_piece_placed(x) + spec_lines_cleared(x) - 30 * row_transitions_upto(x, 4) - 15
        * col_transitions_upto(x, 11)
}

/// `n` full rows as a bit mask.
pub open spec fn low_rows_mask(n: int) -> u64 {
    if n <= 0 {
        0
    } else if n == 1 {
        0b1111111111
    } else if n == 2 {
        0b1111111111_1111111111
    } else {
        0b1111111111_1111111111_1111111111
    }
}

impl Board {
    /// No cell is filled.
    pub fn is_empty(self) -> (r: bool)
        ensures
            r == (self.0 == 0),
    {
        self.0 == 0
    }

    /// All forty cells are filled and nothing lies above them: the state a
    /// perfect clear leaves once the full rows are counted away.
    pub fn is_pc(self) -> (r: bool)
        ensures
            r == (self.0 == BOARD_MASK),
    {
        self.0 == BOARD_MASK
    }

    /// How many of the bottom rows (up to three) are full.
    pub fn lines_cleared(self) -> (r: i16)
        ensures
            r == spec_lines_cleared(self.0),
    {
        let lines: [u64; 4] = [
            0b1111111111,
            0b1111111111_1111111111,
            0b1111111111_1111111111_1111111111,
            0b1111111111_1111111111_1111111111_1111111111,
        ];
        proof {
            lemma_low_rows_full(self.0);
        }
        let mut i: usize = 3;
        while i > 0
            invariant
                i <= 3,
                lines@ == seq![0b1111111111u64, 0b1111111111_1111111111u64,
                    0b1111111111_1111111111_1111111111u64,
                    0b1111111111_1111111111_1111111111_1111111111u64],
                spec_lines_cleared(self.0) <= i,
            decreases i,
        {
            i = i - 1;
            assert(lines[i as int] == lines@[i as int]);
            proof {
                lemma_low_rows_full(self.0);
            }
            if (self.0 & lines[i]) == lines[i] {
                return (i + 1) as i16;
            }
        }
        0
    }

    /// The number of pieces the filled cells amount to.
    pub fn piece_placed(self) -> (r: i16)
        ensures
            r == spec_piece_placed(self.0),
            0 <= r <= 16,
    {
        proof {
            lemma_popcount_max(self.0 & BOARD_MASK);
        }
        (count_ones(self.0 & BOARD_MASK) / 4) as i16
    }

    /// Cells that differ from the cell right under them (a full floor lies
    /// under the bottom row).
    pub fn row_transition(self) -> (r: i16)
        ensures
            r == row_transitions_upto(self.0, 4),
            0 <= r <= 256,
    {
        let mut res: u32 = 0;
        let mut row_mask: u64 = 0b1111111111;
        let mut prev: u64 = 0b1111111111;
        let mut k: u64 = 0;
        proof {
            lemma_word_basics(ROW_MASK, 0);
        }
        while k < 4
            invariant
                k <= 4,
                row_mask == ROW_MASK << ((10 * k) as u64),
                prev == row_below(self.0, k as int) << ((10 * k) as u64),
                res == row_transitions_upto(self.0, k as int),
                res <= 64 * k,
            decreases 4 - k,
        {
            let ghost r = row_of(self.0, k as int);
            let ghost p = row_below(self.0, k as int);
            proof {
                let s = (10 * k) as u64;
                lemma_and_shifted_mask(self.0, ROW_MASK, s);
                lemma_xor_shl(r, p, s);
                lemma_row_small(self.0, k as int);
                if k > 0 {
                    lemma_row_small(self.0, k - 1);
                }
                lemma_word_basics(0, 0);
                lemma_xor_below(r, p, 10);
                lemma2_to64();
                lemma2_to64_rest();
                lemma_u64_shl_is_mul(1, 10);
                lemma_mul_below(r ^ p, s);
                lemma_popcount_shl(r ^ p, s);
                lemma_popcount_max(r ^ p);
                lemma_shl_shl(r, s, 10);
                lemma_shl_shl(ROW_MASK, s, 10);
            }
            res = res + count_ones((self.0 & row_mask) ^ prev);
            prev = (self.0 & row_mask) << 10;
            row_mask = row_mask << 10;
            k = k + 1;
        }
        res as i16
    }

    /// Cells that differ from the cell to their left (full walls stand left of
    /// column 0 and right of column 9).
    pub fn column_transition(self) -> (r: i16)
        ensures
            r == col_transitions_upto(self.0, 11),
            0 <= r <= 704,
    {
        let mut res: u32 = 0;
        let mut col_mask: u64 = 0b0000000001_0000000001_0000000001_0000000001;
        let mut prev: u64 = 0b0000000001_0000000001_0000000001_0000000001;
        let mut c: u64 = 0;
        proof {
            lemma_word_basics(COL_MASK, 0);
        }
        while c < 10
            invariant
                c <= 10,
                col_mask == COL_MASK << c,
                prev == walled_col(self.0, c - 1) << c,
                res == col_transitions_upto(self.0, c as int),
                res <= 64 * c,
            decreases 10 - c,
        {
            let ghost v = col_of(self.0, c as int);
            let ghost p = walled_col(self.0, c - 1);
            proof {
                lemma_and_shifted_mask(self.0, COL_MASK, c);
                lemma_xor_shl(v, p, c);
                lemma_col_small(self.0, c as int);
                if c > 0 {
                    lemma_col_small(self.0, c - 1);
                }
                lemma_col_mask_small();
                lemma_xor_below(v, p, 31);
                lemma_xor_step_bound(v ^ p, c);
                lemma_popcount_shl(v ^ p, c);
                lemma_popcount_max(v ^ p);
                lemma_shl_shl(v, c, 1);
                lemma_shl_shl(COL_MASK, c, 1);
            }
            res = res + count_ones((self.0 & col_mask) ^ prev);
            prev = (self.0 & col_mask) << 1;
            col_mask = col_mask << 1;
            c = c + 1;
        }
        proof {
            let v = col_of(self.0, 9);
            lemma_xor_shl(v, COL_MASK, 10);
            lemma_xor_shl(COL_MASK, v, 10);
            lemma_col_small(self.0, 9);
            lemma_col_mask_small();
            lemma_xor_below(v, COL_MASK, 31);
            lemma_xor_step_bound(v ^ COL_MASK, 10);
            lemma_popcount_shl(v ^ COL_MASK, 10);
            lemma_popcount_max(v ^ COL_MASK);
        }
        res = res + count_ones(prev ^ col_mask);
        res as i16
    }

    /// The search's score of the board: twice the pieces placed plus the
    /// full bottom rows, less 30 per row transition and 15 per column transition.
    pub fn evaluate(self) -> (r: i16)
        ensures
            r == spec_evaluate(self.0),
    {
        let depth = self.piece_placed();
        let lines_cleared = self.lines_cleared();
        let row_transition = self.row_transition();
        let col_transition = self.column_transition();
        (depth * 2) + lines_cleared - row_transition * 30 - col_transition * 15
    }

    /// Raises the board by `n` rows and fills the `n` rows freed below, so a
    /// perfect clear of fewer lines can be searched as one of four.
    pub fn add_lines(self, n: usize) -> (b: Board)
        requires
            n < 4,
        ensures
            b.0 == (self.0 << ((10 * n) as u64)) | low_rows_mask(n as int),
    {
        let lines: [u64; 4] = [
            0,
            0b_1111111111,
            0b_1111111111_1111111111,
            0b_1111111111_1111111111_1111111111,
        ];
        if n == 0 {
            proof {
                lemma_word_basics(self.0, 0);
            }
            self
        } else {
            Board((self.0 << (n * 10)) | lines[n])
        }
    }
}

/// Raising a board by `n` rows puts `n` full rows under its bottom rows
/// (its top `n` rows leave the field).
pub proof fn lemma_add_lines_rows(x: u64, n: int)
    requires
        0 <= n < 4,
    ensures
        rows_of((x << ((10 * n) as u64)) | low_rows_mask(n)) =~= full_rows(n as nat) + rows_of(x).take(4 - n),
{
    let y = (x << ((10 * n) as u64)) | low_rows_mask(n);
    if n == 0 {
        lemma_word_basics(x, 0);
        assert(rows_of(x).take(4) =~= rows_of(x));
    } else if n == 1 {
        assert(y == (x << 10u64) | 0b1111111111u64);
        lemma_raised_rows(x);
    } else if n == 2 {
        assert(y == (x << 20u64) | 0b1111111111_1111111111u64);
        lemma_raised_rows(x);
    } else {
        assert(y == (x << 30u64) | 0b1111111111_1111111111_1111111111u64);
        lemma_raised_rows(x);
    }
}

proof fn lemma_raised_rows(x: u64)
    by (bit_vector)
    ensures
        ((((x << 10u64) | 0b1111111111u64) >> 0u64) & 1023 == 1023) && ((((x << 10u64)
            | 0b1111111111u64) >> 10u64) & 1023 == (x >> 0u64) & 1023) && ((((x << 10u64)
            | 0b1111111111u64) >> 20u64) & 1023 == (x >> 10u64) & 1023) && ((((x << 10u64)
            | 0b1111111111u64) >> 30u64) & 1023 == (x >> 20u64) & 1023),
        ((((x << 20u64) | 0b1111111111_1111111111u64) >> 0u64) & 1023 == 1023) && ((((x
            << 20u64) | 0b1111111111_1111111111u64) >> 10u64) & 1023 == 1023) && ((((x << 20u64)
            | 0b1111111111_1111111111u64) >> 20u64) & 1023 == (x >> 0u64) & 1023) && ((((x << 20u64)
            | 0b1111111111_1111111111u64) >> 30u64) & 1023 == (x >> 10u64) & 1023),
        ((((x << 30u64) | 0b1111111111_1111111111_1111111111u64) >> 0u64) & 1023 == 1023)
            && ((((x << 30u64) | 0b1111111111_1111111111_1111111111u64) >> 10u64) & 1023 == 1023)
            && ((((x << 30u64) | 0b1111111111_1111111111_1111111111u64) >> 20u64) & 1023 == 1023)
            && ((((x << 30u64) | 0b1111111111_1111111111_1111111111u64) >> 30u64) & 1023 == (x
            >> 0u64) & 1023),
{
}

/// The full board is the one with four full rows and nothing above them.
pub proof fn lemma_pc_board(x: u64)
    ensures
        (x == BOARD_MASK) == (row_full(x, 0) && row_full(x, 1) && row_full(x, 2) && row_full(x, 3)
            && x >> 40u64 == 0),
{
    assert((x == 0b1111111111_1111111111_1111111111_1111111111u64) == ((x >> 0u64) & 1023 == 1023
        && (x >> 10u64) & 1023 == 1023 && (x >> 20u64) & 1023 == 1023 && (x >> 30u64) & 1023 == 1023
        && x >> 40u64 == 0)) by (bit_vector);
}

/// Sinking the full rows only reorders rows: the settled rows hold the
/// same rows, as many times each.
pub proof fn lemma_settled_permutes(x: u64)
    ensures
        settled(x).to_multiset() =~= rows_of(x).to_multiset(),
{
    lemma_sink_permutes(rows_of(x));
}

proof fn lemma_sink_permutes(rows: Seq<u64>)
    ensures
        (full_rows(count_full(rows)) + open_rows(rows)).to_multiset() =~= rows.to_multiset(),
    decreases rows.len(),
{
    broadcast use vstd::seq_lib::group_to_multiset_ensures, vstd::seq_lib::lemma_multiset_commutative;
    if rows.len() == 0 {
        assert(full_rows(0) + open_rows(rows) =~= rows);
    } else {
        let x = rows[0];
        let rest = rows.drop_first();
        assert(rows =~= seq![x] + rest);
        lemma_sink_permutes(rest);
        let c = count_full(rest);
        if x == ROW_MASK {
            assert(full_rows(c + 1) =~= seq![x] + full_rows(c));
            assert(full_rows(c + 1) + open_rows(rest) =~= seq![x] + (full_rows(c) + open_rows(rest)));
        } else {
            assert(full_rows(c) + (seq![x] + open_rows(rest)) =~= (full_rows(c) + seq![x]) + open_rows(
                rest,
            ));
        }
    }
}

/// The cells of a sequence of rows.
pub open spec fn cells_in_rows(rows: Seq<u64>) -> nat
    decreases rows.len(),
{
    if rows.len() == 0 {
        0
    } else {
        popcount(rows[0]) + cells_in_rows(rows.drop_first())
    }
}

pub proof fn lemma_fit_concat(a: Seq<u64>, b: Seq<u64>)
    requires
        rows_fit(a),
        rows_fit(b),
    ensures
        rows_fit(a + b),
{
    assert forall|i: int| 0 <= i < (a + b).len() implies (a + b)[i] < 1024 by {
        if i >= a.len() {
            assert((a + b)[i] == b[i - a.len()]);
        }
    }
}

proof fn lemma_cells_concat(a: Seq<u64>, b: Seq<u64>)
    ensures
        cells_in_rows(a + b) == cells_in_rows(a) + cells_in_rows(b),
    decreases a.len(),
{
    if a.len() == 0 {
        assert(a + b =~= b);
    } else {
        assert((a + b).drop_first() =~= a.drop_first() + b);
        lemma_cells_concat(a.drop_first(), b);
    }
}

/// The cells of a stack of at most four rows are the cells of its rows.
pub proof fn lemma_stack_cells(rows: Seq<u64>)
    requires
        rows_fit(rows),
        rows.len() <= 4,
    ensures
        popcount(stack(rows) as u64) == cells_in_rows(rows),
    decreases rows.len(),
{
    lemma2_to64();
    lemma2_to64_rest();
    if rows.len() > 0 {
        let rest = rows.drop_first();
        lemma_stack_cells(rest);
        lemma_stack_bound(rest);
        if rest.len() < 3 {
            lemma_pow2_strictly_increases((10 * rest.len()) as nat, 30);
        }
        let s = stack(rest) as u64;
        let r = rows[0];
        lemma_row_push(s, r);
        lemma_popcount_or_disjoint(s << 10u64, r);
        assert(s * pow2(10) <= u64::MAX);
        lemma_popcount_shl(s, 10);
    }
}

proof fn lemma_row_push(s: u64, r: u64)
    by (bit_vector)
    requires
        s < 0x4000_0000,
        r < 1024,
    ensures
        (s << 10u64) | r == s * 1024 + r,
        (s << 10u64) & r == 0,
{
}

/// Sinking the full rows keeps the cells of the rows.
pub proof fn lemma_sink_keeps_cells(rows: Seq<u64>)
    ensures
        cells_in_rows(full_rows(count_full(rows)) + open_rows(rows)) == cells_in_rows(rows),
    decreases rows.len(),
{
    if rows.len() == 0 {
        assert(full_rows(0) + open_rows(rows) =~= rows);
    } else {
        let x = rows[0];
        let rest = rows.drop_first();
        lemma_sink_keeps_cells(rest);
        let c = count_full(rest);
        if x == ROW_MASK {
            assert(full_rows(c + 1) + open_rows(rest) =~= seq![x] + (full_rows(c) + open_rows(rest)));
            assert((seq![x] + (full_rows(c) + open_rows(rest))).drop_first() =~= full_rows(c) + open_rows(rest));
        } else {
            lemma_cells_concat(full_rows(c), seq![x] + open_rows(rest));
            lemma_cells_concat(full_rows(c), open_rows(rest));
            assert((seq![x] + open_rows(rest)).drop_first() =~= open_rows(rest));
        }
    }
}

/// A board inside the four rows is the stack of its four rows.
pub proof fn lemma_stack_rows(u: u64)
    requires
        u >> 40u64 == 0,
    ensures
        stack(rows_of(u)) == u,
{
    let r = rows_of(u);
    let d1 = r.drop_first();
    let d2 = d1.drop_first();
    let d3 = d2.drop_first();
    let d4 = d3.drop_first();
    assert(d1 =~= seq![row_of(u, 1), row_of(u, 2), row_of(u, 3)]);
    assert(d2 =~= seq![row_of(u, 2), row_of(u, 3)]);
    assert(d3 =~= seq![row_of(u, 3)]);
    assert(d4 =~= Seq::<u64>::empty());
    assert(stack(d4) == 0);
    assert(stack(d3) == row_of(u, 3) + 1024 * stack(d4));
    assert(stack(d2) == row_of(u, 2) + 1024 * stack(d3));
    assert(stack(d1) == row_of(u, 1) + 1024 * stack(d2));
    assert(stack(r) == row_of(u, 0) + 1024 * stack(d1));
    assert(row_of(u, 0) == (u >> 0u64) & 1023 && row_of(u, 1) == (u >> 10u64) & 1023 && row_of(u, 2)
        == (u >> 20u64) & 1023 && row_of(u, 3) == (u >> 30u64) & 1023);
    assert(u >> 40u64 == 0 ==> u == ((u >> 0u64) & 1023) + 1024 * (((u >> 10u64) & 1023) + 1024 * (((
        u >> 20u64) & 1023) + 1024 * ((u >> 30u64) & 1023)))) by (bit_vector);
}

/// A board inside the four rows with a piece inside them stays inside them.
pub proof fn lemma_inside_rows(x: u64, c: u64)
    by (bit_vector)
    requires
        x >> 40u64 == 0,
        c & !0b1111111111_1111111111_1111111111_1111111111u64 == 0,
    ensures
        (x | c) >> 40u64 == 0,
{
}

/// A row of a number fits ten bits.
pub proof fn lemma_row_small(x: u64, k: int)
    ensures
        row_of(x, k) < 1024,
{
    lemma_and_le(x >> ((10 * k) as u64), ROW_MASK);
}

/// A column of a number lies below `2^31`.
pub proof fn lemma_col_small(x: u64, c: int)
    ensures
        col_of(x, c) < (1u64 << 31u64),
{
    lemma_and_le(x >> (c as u64), COL_MASK);
    lemma_col_mask_small();
}

proof fn lemma_col_mask_small()
    ensures
        COL_MASK < (1u64 << 31u64),
{
    lemma_word_basics(0, 0);
}

proof fn lemma_mul_below(v: u64, s: u64)
    requires
        v < 1024,
        s <= 30,
    ensures
        v * pow2(s as nat) <= u64::MAX,
{
    lemma2_to64();
    lemma2_to64_rest();
    if s < 30 {
        lemma_pow2_strictly_increases(s as nat, 30);
    }
    assert(v * pow2(s as nat) <= 1024 * pow2(30)) by (nonlinear_arith)
        requires
            v < 1024,
            pow2(s as nat) <= pow2(30),
    ;
}

proof fn lemma_xor_step_bound(v: u64, c: u64)
    requires
        v < (1u64 << 31u64),
        c <= 10,
    ensures
        v * pow2(c as nat) <= u64::MAX,
{
    lemma2_to64();
    lemma2_to64_rest();
    lemma_u64_shl_is_mul(1, 31);
    if c < 10 {
        lemma_pow2_strictly_increases(c as nat, 10);
    }
    assert(v * pow2(c as nat) <= pow2(31) * pow2(10)) by (nonlinear_arith)
        requires
            v < pow2(31),
            pow2(c as nat) <= pow2(10),
    ;
}

/// Full bottom rows, read off masks of the bottom rows.
proof fn lemma_low_rows_full(x: u64)
    ensures
        ((x & 0b1111111111) == 0b1111111111) == row_full(x, 0),
        ((x & 0b1111111111_1111111111) == 0b1111111111_1111111111) == (row_full(x, 0) && row_full(x, 1)),
        ((x & 0b1111111111_1111111111_1111111111) == 0b1111111111_1111111111_1111111111) == (row_full(x, 0)
            && row_full(x, 1) && row_full(x, 2)),
{
    assert(((x & 0b1111111111) == 0b1111111111) == ((x >> 0u64) & 1023 == 1023) && ((x
        & 0b1111111111_1111111111) == 0b1111111111_1111111111) == ((x >> 0u64) & 1023 == 1023 && (x
        >> 10u64) & 1023 == 1023) && ((x & 0b1111111111_1111111111_1111111111)
        == 0b1111111111_1111111111_1111111111) == ((x >> 0u64) & 1023 == 1023 && (x >> 10u64) & 1023
        == 1023 && (x >> 20u64) & 1023 == 1023)) by (bit_vector);
}

} // verus!
