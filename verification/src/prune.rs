//! Pruning tests: boards from which no perfect clear of the four rows can be reached.

use vstd::prelude::*;
use vstd::std_specs::bits::{u64_trailing_zeros, axiom_u64_trailing_zeros};
use crate::board::{
    Board, COL_MASK, ROW_MASK, row_of, rows_of, stack, settled, full_rows, open_rows, count_full,
    rows_fit, lemma_open_rows_len, lemma_fit_concat, lemma_inside_rows,
};
use crate::bits::{popcount, count_ones, lemma_word_basics, lemma_popcount_shl, lemma_popcount_or_disjoint};
use crate::piece::{Piece, pattern, lemma_piece_cells, lemma_in_bounds_defined, lemma_rows_fit};
use vstd::arithmetic::power2::{pow2, lemma2_to64, lemma2_to64_rest};

verus! {

/// Bit `i` of `x` is set (bits 64 and up are never set).
pub open spec fn cell_set(x: u64, i: u64) -> bool {
    i < 64 && (x >> i) & 1 == 1
}

/// The cell at bit `i` has a wall or a filled cell on its left.
pub open spec fn walled_left(x: u64, i: u64) -> bool {
    (i % 10 == 0 && i < 40) || (i >= 1 && cell_set(x, (i - 1) as u64))
}

/// The cell at bit `i` has a wall or a filled cell on its right.
pub open spec fn walled_right(x: u64, i: u64) -> bool {
    (i % 10 == 9 && i < 40) || cell_set(x, (i + 1) as u64)
}

/// The cell at bit `i` is filled, or empty with both sides blocked.
pub open spec fn enclosed(x: u64, i: u64) -> bool {
    i < 64 && (cell_set(x, i) || (walled_left(x, i) && walled_right(x, i)))
}

/// The column of cells at bits `j`, `j + 10`, `j + 20`, `j + 30` is neither
/// empty nor full, and each of its empty cells is blocked on both sides, so
/// it can only be filled from above.
pub open spec fn isolated_at(x: u64, j: u64) -> bool {
    &&& j < 64
    &&& cell_set(x, j) || cell_set(x, (j + 10) as u64) || cell_set(x, (j + 20) as u64) || cell_set(
        x,
        (j + 30) as u64,
    )
    &&& !(cell_set(x, j) && cell_set(x, (j + 10) as u64) && cell_set(x, (j + 20) as u64) && cell_set(
        x,
        (j + 30) as u64,
    ))
    &&& enclosed(x, j)
    &&& enclosed(x, (j + 10) as u64)
    &&& enclosed(x, (j + 20) as u64)
    &&& enclosed(x, (j + 30) as u64)
}

/// Some column is isolated in the sense of `isolated_at`.
pub open spec fn spec_has_isolated_cell(x: u64) -> bool {
    exists|j: u64| j < 64 && #[trigger] isolated_at(x, j)
}

/// Every row has a filled cell in column `k` or `k + 1`: no piece can cross
/// between columns `k` and `k + 1`.
pub open spec fn split_after(x: u64, k: u64) -> bool {
    &&& cell_set(x, k) || cell_set(x, (k + 1) as u64)
    &&& cell_set(x, (k + 10) as u64) || cell_set(x, (k + 11) as u64)
    &&& cell_set(x, (k + 20) as u64) || cell_set(x, (k + 21) as u64)
    &&& cell_set(x, (k + 30) as u64) || cell_set(x, (k + 31) as u64)
}

/// The cells of the four rows in columns `0..=k`.
pub open spec fn cols_upto_mask(k: u64) -> u64
    decreases k,
{
    if k == 0 {
        COL_MASK
    } else {
        cols_upto_mask((k - 1) as u64) | (COL_MASK << k)
    }
}

/// The board is split after column `k` and the part left of the split
/// holds a number of filled cells that is not a multiple of four.
pub open spec fn imbalanced_at(x: u64, k: u64) -> bool {
    split_after(x, k) && popcount(x & cols_upto_mask(k)) % 4 != 0
}

/// The board is imbalanced after one of the columns 1 to 7.
pub open spec fn spec_has_imbalanced_split(x: u64) -> bool {
    exists|k: u64| 1 <= k <= 7 && #[trigger] imbalanced_at(x, k)
}

/// Nothing rules out a perfect clear: no imbalanced split, no isolated
/// column, and no cell above the four rows.
pub open spec fn spec_is_pcable(x: u64) -> bool {
    !spec_has_imbalanced_split(x) && !spec_has_isolated_cell(x) && x >> 40 == 0
}

/// No column of the full board is isolated.
proof fn lemma_full_not_isolated(j: u64)
    by (bit_vector)
    requires
        j < 64,
    ensures
        !isolated_at(0b1111111111_1111111111_1111111111_1111111111u64, j),
{
}

/// The cells of the four rows in columns `0..=k`, for `k` up to 7, number `4 * (k + 1)`.
proof fn lemma_col_counts()
    ensures
        popcount(0xc0300c03u64) == 8,
        popcount(0x1c0701c07u64) == 12,
        popcount(0x3c0f03c0fu64) == 16,
        popcount(0x7c1f07c1fu64) == 20,
        popcount(0xfc3f0fc3fu64) == 24,
        popcount(0x1fc7f1fc7fu64) == 28,
        popcount(0x3fcff3fcffu64) == 32,
{
    lemma2_to64();
    lemma2_to64_rest();
    let c = 0x40100401u64;
    assert(popcount(c) == 4) by {
        reveal_with_fuel(popcount, 32);
    }
    assert((0x40100401u64 | (0x40100401u64 << 1u64)) == 0xc0300c03u64
        && (0xc0300c03u64 | (0x40100401u64 << 2u64)) == 0x1c0701c07u64
        && (0x1c0701c07u64 | (0x40100401u64 << 3u64)) == 0x3c0f03c0fu64
        && (0x3c0f03c0fu64 | (0x40100401u64 << 4u64)) == 0x7c1f07c1fu64
        && (0x7c1f07c1fu64 | (0x40100401u64 << 5u64)) == 0xfc3f0fc3fu64
        && (0xfc3f0fc3fu64 | (0x40100401u64 << 6u64)) == 0x1fc7f1fc7fu64
        && (0x1fc7f1fc7fu64 | (0x40100401u64 << 7u64)) == 0x3fcff3fcffu64
        && 0x40100401u64 & (0x40100401u64 << 1u64) == 0
        && 0xc0300c03u64 & (0x40100401u64 << 2u64) == 0
        && 0x1c0701c07u64 & (0x40100401u64 << 3u64) == 0
        && 0x3c0f03c0fu64 & (0x40100401u64 << 4u64) == 0
        && 0x7c1f07c1fu64 & (0x40100401u64 << 5u64) == 0
        && 0xfc3f0fc3fu64 & (0x40100401u64 << 6u64) == 0
        && 0x1fc7f1fc7fu64 & (0x40100401u64 << 7u64) == 0) by (bit_vector);
    lemma_popcount_shl(c, 1);
    lemma_popcount_or_disjoint(0x40100401u64, c << 1u64);
    lemma_popcount_shl(c, 2);
    lemma_popcount_or_disjoint(0xc0300c03u64, c << 2u64);
    lemma_popcount_shl(c, 3);
    lemma_popcount_or_disjoint(0x1c0701c07u64, c << 3u64);
    lemma_popcount_shl(c, 4);
    lemma_popcount_or_disjoint(0x3c0f03c0fu64, c << 4u64);
    lemma_popcount_shl(c, 5);
    lemma_popcount_or_disjoint(0x7c1f07c1fu64, c << 5u64);
    lemma_popcount_shl(c, 6);
    lemma_popcount_or_disjoint(0xfc3f0fc3fu64, c << 6u64);
    lemma_popcount_shl(c, 7);
    lemma_popcount_or_disjoint(0x1fc7f1fc7fu64, c << 7u64);
}

/// The cells of columns `0..=k`, for `k` from 1 to 7, as words.
proof fn lemma_cols_upto_values()
    ensures
        cols_upto_mask(1) == 0xc0300c03u64,
        cols_upto_mask(2) == 0x1c0701c07u64,
        cols_upto_mask(3) == 0x3c0f03c0fu64,
        cols_upto_mask(4) == 0x7c1f07c1fu64,
        cols_upto_mask(5) == 0xfc3f0fc3fu64,
        cols_upto_mask(6) == 0x1fc7f1fc7fu64,
        cols_upto_mask(7) == 0x3fcff3fcffu64,
{
    assert((0x40100401u64 | (0x40100401u64 << 1u64)) == 0xc0300c03u64
        && (0xc0300c03u64 | (0x40100401u64 << 2u64)) == 0x1c0701c07u64
        && (0x1c0701c07u64 | (0x40100401u64 << 3u64)) == 0x3c0f03c0fu64
        && (0x3c0f03c0fu64 | (0x40100401u64 << 4u64)) == 0x7c1f07c1fu64
        && (0x7c1f07c1fu64 | (0x40100401u64 << 5u64)) == 0xfc3f0fc3fu64
        && (0xfc3f0fc3fu64 | (0x40100401u64 << 6u64)) == 0x1fc7f1fc7fu64
        && (0x1fc7f1fc7fu64 | (0x40100401u64 << 7u64)) == 0x3fcff3fcffu64) by (bit_vector);
    assert(cols_upto_mask(0) == COL_MASK);
    assert(cols_upto_mask(1) == cols_upto_mask(0) | (COL_MASK << 1u64));
    assert(cols_upto_mask(2) == cols_upto_mask(1) | (COL_MASK << 2u64));
    assert(cols_upto_mask(3) == cols_upto_mask(2) | (COL_MASK << 3u64));
    assert(cols_upto_mask(4) == cols_upto_mask(3) | (COL_MASK << 4u64));
    assert(cols_upto_mask(5) == cols_upto_mask(4) | (COL_MASK << 5u64));
    assert(cols_upto_mask(6) == cols_upto_mask(5) | (COL_MASK << 6u64));
    assert(cols_upto_mask(7) == cols_upto_mask(6) | (COL_MASK << 7u64));
}

/// The full board passes the pruning tests.
pub proof fn lemma_full_board_pcable()
    ensures
        spec_is_pcable(0b1111111111_1111111111_1111111111_1111111111u64),
{
    let x = 0b1111111111_1111111111_1111111111_1111111111u64;
    assert(0b1111111111_1111111111_1111111111_1111111111u64 >> 40u64 == 0
        && 0b1111111111_1111111111_1111111111_1111111111u64 & 0xc0300c03u64 == 0xc0300c03u64
        && 0b1111111111_1111111111_1111111111_1111111111u64 & 0x1c0701c07u64 == 0x1c0701c07u64
        && 0b1111111111_1111111111_1111111111_1111111111u64 & 0x3c0f03c0fu64 == 0x3c0f03c0fu64
        && 0b1111111111_1111111111_1111111111_1111111111u64 & 0x7c1f07c1fu64 == 0x7c1f07c1fu64
        && 0b1111111111_1111111111_1111111111_1111111111u64 & 0xfc3f0fc3fu64 == 0xfc3f0fc3fu64
        && 0b1111111111_1111111111_1111111111_1111111111u64 & 0x1fc7f1fc7fu64 == 0x1fc7f1fc7fu64
        && 0b1111111111_1111111111_1111111111_1111111111u64 & 0x3fcff3fcffu64 == 0x3fcff3fcffu64) by (bit_vector);
    assert forall|j: u64| j < 64 implies !#[trigger] isolated_at(x, j) by {
        lemma_full_not_isolated(j);
    }
    lemma_cols_upto_values();
    lemma_col_counts();
    assert forall|k: u64| 1 <= k <= 7 implies !#[trigger] imbalanced_at(x, k) by {
        if k == 1 {
        } else if k == 2 {
        } else if k == 3 {
        } else if k == 4 {
        } else if k == 5 {
        } else if k == 6 {
        } else {
            assert(k == 7);
        }
    }
}

/// A piece in bounds that covers no filled cell lies wholly on one side of a
/// split: crossing it would take two cells side by side across the split,
/// one of which is filled in every row.
proof fn lemma_no_straddle(x: u64, pat: u64, row: u64, col: u64, k: u64)
    by (bit_vector)
    requires
        1 <= k <= 7,
        row <= 5,
        (pat == 15u64 && col <= 6u64) || (pat == 1031u64 && col <= 7u64) || (pat == 2055u64 && col <= 7u64) || (pat == 3075u64 && col <= 8u64) || (pat == 3078u64 && col <= 7u64) || (pat == 4103u64 && col <= 7u64) || (pat == 6147u64 && col <= 7u64) || (pat == 7169u64 && col <= 7u64) || (pat == 7170u64 && col <= 7u64) || (pat == 7172u64 && col <= 7u64) || (pat == 1049603u64 && col <= 8u64) || (pat == 1051649u64 && col <= 8u64) || (pat == 1051650u64 && col <= 8u64) || (pat == 2099203u64 && col <= 8u64) || (pat == 2100225u64 && col <= 8u64) || (pat == 2100226u64 && col <= 8u64) || (pat == 3146753u64 && col <= 8u64) || (pat == 3147778u64 && col <= 8u64) || (pat == 1074791425u64 && col <= 9u64),
        (pat << ((10 * row + col) as u64)) & !0xff_ffff_ffffu64 == 0,
        x & (pat << ((10 * row + col) as u64)) == 0,
        (x | (x >> 1u64)) & (0x40100401u64 << k) == (0x40100401u64 << k),
    ensures
        (pat << ((10 * row + col) as u64)) & ((0x40100401u64 << ((k + 1) as u64)) - 0x40100401u64) as u64 == 0
            || (pat << ((10 * row + col) as u64)) & !(((0x40100401u64 << ((k + 1) as u64)) - 0x40100401u64) as u64) & 0xff_ffff_ffffu64 == 0,
{
}

/// The cells of `rows` under the mask `m`, row by row.
pub open spec fn cells_under(rows: Seq<u64>, m: u64) -> nat
    decreases rows.len(),
{
    if rows.len() == 0 {
        0
    } else {
        popcount(rows[0] & m) + cells_under(rows.drop_first(), m)
    }
}

/// The cells of columns `0..=k` within one row.
pub open spec fn low_mask(k: u64) -> u64 {
    ((1u64 << ((k + 1) as u64)) - 1) as u64
}

/// Row `r` has a filled cell in column `k` or `k + 1`.
pub open spec fn row_sealed(r: u64, k: u64) -> bool {
    (r >> k) & 1 == 1 || (r >> ((k + 1) as u64)) & 1 == 1
}

/// Every row of `rows` is sealed at `k`.
pub open spec fn all_sealed(rows: Seq<u64>, k: u64) -> bool {
    forall|i: int| 0 <= i < rows.len() ==> row_sealed(#[trigger] rows[i], k)
}

/// The cells of columns `0..=k`, as a formula in `k`.
proof fn lemma_cols_upto_formula(k: u64)
    requires
        1 <= k <= 7,
    ensures
        cols_upto_mask(k) == ((0x40100401u64 << ((k + 1) as u64)) - 0x40100401u64) as u64,
{
    lemma_cols_upto_values();
    assert(((0x40100401u64 << 2u64) - 0x40100401u64) as u64 == 0xc0300c03u64
        && ((0x40100401u64 << 3u64) - 0x40100401u64) as u64 == 0x1c0701c07u64
        && ((0x40100401u64 << 4u64) - 0x40100401u64) as u64 == 0x3c0f03c0fu64
        && ((0x40100401u64 << 5u64) - 0x40100401u64) as u64 == 0x7c1f07c1fu64
        && ((0x40100401u64 << 6u64) - 0x40100401u64) as u64 == 0xfc3f0fc3fu64
        && ((0x40100401u64 << 7u64) - 0x40100401u64) as u64 == 0x1fc7f1fc7fu64
        && ((0x40100401u64 << 8u64) - 0x40100401u64) as u64 == 0x3fcff3fcffu64) by (bit_vector);
}

/// A board inside the four rows, masked to columns `0..=k`, is its four
/// masked rows side by side.
proof fn lemma_mask_rows(z: u64, k: u64)
    by (bit_vector)
    requires
        k <= 7,
        z >> 40u64 == 0,
    ensures
        z & (((0x40100401u64 << ((k + 1) as u64)) - 0x40100401u64) as u64) == (((z >> 0u64) & 1023) & (((1u64 << ((k + 1) as u64)) - 1) as u64)) | ((((z >> 10u64) & 1023) & (((1u64 << ((k + 1) as u64)) - 1) as u64)) << 10u64) | ((((z >> 20u64) & 1023) & (((1u64 << ((k + 1) as u64)) - 1) as u64)) << 20u64) | ((((z >> 30u64) & 1023) & (((1u64 << ((k + 1) as u64)) - 1) as u64)) << 30u64),
        (((z >> 0u64) & 1023) & (((1u64 << ((k + 1) as u64)) - 1) as u64)) & ((((z >> 10u64) & 1023) & (((1u64 << ((k + 1) as u64)) - 1) as u64)) << 10u64) == 0,
        ((((z >> 0u64) & 1023) & (((1u64 << ((k + 1) as u64)) - 1) as u64)) | ((((z >> 10u64) & 1023) & (((1u64 << ((k + 1) as u64)) - 1) as u64)) << 10u64)) & ((((z >> 20u64) & 1023) & (((1u64 << ((k + 1) as u64)) - 1) as u64)) << 20u64) == 0,
        ((((z >> 0u64) & 1023) & (((1u64 << ((k + 1) as u64)) - 1) as u64)) | ((((z >> 10u64) & 1023) & (((1u64 << ((k + 1) as u64)) - 1) as u64)) << 10u64) | ((((z >> 20u64) & 1023) & (((1u64 << ((k + 1) as u64)) - 1) as u64)) << 20u64)) & ((((z >> 30u64) & 1023) & (((1u64 << ((k + 1) as u64)) - 1) as u64)) << 30u64) == 0,
        (((z >> 10u64) & 1023) & (((1u64 << ((k + 1) as u64)) - 1) as u64)) < 1024,
        (((z >> 20u64) & 1023) & (((1u64 << ((k + 1) as u64)) - 1) as u64)) < 1024,
        (((z >> 30u64) & 1023) & (((1u64 << ((k + 1) as u64)) - 1) as u64)) < 1024,
{
}

/// The cells of columns `0..=k` of a board inside the four rows are the
/// cells of its rows under the low mask.
proof fn lemma_left_cells(z: u64, k: u64)
    requires
        1 <= k <= 7,
        z >> 40u64 == 0,
    ensures
        popcount(z & cols_upto_mask(k)) == cells_under(rows_of(z), low_mask(k)),
{
    lemma_cols_upto_formula(k);
    lemma_mask_rows(z, k);
    lemma2_to64();
    lemma2_to64_rest();
    let m = low_mask(k);
    let a0 = row_of(z, 0) & m;
    let a1 = row_of(z, 1) & m;
    let a2 = row_of(z, 2) & m;
    let a3 = row_of(z, 3) & m;
    assert(a1 * pow2(10) <= u64::MAX && a2 * pow2(20) <= u64::MAX && a3 * pow2(30) <= u64::MAX) by (nonlinear_arith)
        requires
            a1 < 1024,
            a2 < 1024,
            a3 < 1024,
            pow2(10) == 1024,
            pow2(20) == 0x10_0000,
            pow2(30) == 0x4000_0000,
    ;
    lemma_popcount_shl(a1, 10);
    lemma_popcount_shl(a2, 20);
    lemma_popcount_shl(a3, 30);
    lemma_popcount_or_disjoint(a0, a1 << 10u64);
    lemma_popcount_or_disjoint(a0 | (a1 << 10u64), a2 << 20u64);
    lemma_popcount_or_disjoint(a0 | (a1 << 10u64) | (a2 << 20u64), a3 << 30u64);
    let r = rows_of(z);
    let d1 = r.drop_first();
    let d2 = d1.drop_first();
    let d3 = d2.drop_first();
    let d4 = d3.drop_first();
    assert(d1 =~= seq![row_of(z, 1), row_of(z, 2), row_of(z, 3)]);
    assert(d2 =~= seq![row_of(z, 2), row_of(z, 3)]);
    assert(d3 =~= seq![row_of(z, 3)]);
    assert(d4 =~= Seq::<u64>::empty());
    assert(cells_under(d4, m) == 0);
    assert(cells_under(d3, m) == popcount(a3));
    assert(cells_under(d2, m) == popcount(a2) + popcount(a3));
    assert(cells_under(d1, m) == popcount(a1) + popcount(a2) + popcount(a3));
    assert(cells_under(r, m) == popcount(a0) + popcount(a1) + popcount(a2) + popcount(a3));
}

proof fn lemma_cells_under_concat(a: Seq<u64>, b: Seq<u64>, m: u64)
    ensures
        cells_under(a + b, m) == cells_under(a, m) + cells_under(b, m),
    decreases a.len(),
{
    if a.len() == 0 {
        assert(a + b =~= b);
    } else {
        assert((a + b).drop_first() =~= a.drop_first() + b);
        lemma_cells_under_concat(a.drop_first(), b, m);
    }
}

/// Sinking the full rows keeps the cells under any mask.
proof fn lemma_sink_keeps_cells_under(rows: Seq<u64>, m: u64)
    ensures
        cells_under(full_rows(count_full(rows)) + open_rows(rows), m) == cells_under(rows, m),
    decreases rows.len(),
{
    if rows.len() == 0 {
        assert(full_rows(0) + open_rows(rows) =~= rows);
    } else {
        let x = rows[0];
        let rest = rows.drop_first();
        lemma_sink_keeps_cells_under(rest, m);
        let c = count_full(rest);
        if x == ROW_MASK {
            assert(full_rows(c + 1) + open_rows(rest) =~= seq![x] + (full_rows(c) + open_rows(rest)));
            assert((seq![x] + (full_rows(c) + open_rows(rest))).drop_first() =~= full_rows(c) + open_rows(rest));
        } else {
            lemma_cells_under_concat(full_rows(c), seq![x] + open_rows(rest), m);
            lemma_cells_under_concat(full_rows(c), open_rows(rest), m);
            assert((seq![x] + open_rows(rest)).drop_first() =~= open_rows(rest));
        }
    }
}

/// Sinking the full rows keeps every row sealed.
proof fn lemma_sink_keeps_sealed(rows: Seq<u64>, k: u64)
    requires
        k <= 8,
        all_sealed(rows, k),
    ensures
        all_sealed(full_rows(count_full(rows)) + open_rows(rows), k),
    decreases rows.len(),
{
    assert(row_sealed(ROW_MASK, k)) by {
        assert(k <= 8 ==> (1023u64 >> k) & 1 == 1) by (bit_vector);
    }
    if rows.len() > 0 {
        let rest = rows.drop_first();
        assert forall|i: int| 0 <= i < rest.len() implies row_sealed(#[trigger] rest[i], k) by {
            assert(rest[i] == rows[i + 1]);
        }
        lemma_sink_keeps_sealed(rest, k);
        let c = count_full(rest);
        let s = full_rows(count_full(rows)) + open_rows(rows);
        let t = full_rows(c) + open_rows(rest);
        assert(row_sealed(rows[0], k));
        assert forall|i: int| 0 <= i < s.len() implies row_sealed(#[trigger] s[i], k) by {
            if rows[0] == ROW_MASK {
                assert(s =~= seq![rows[0]] + t);
                if i > 0 {
                    assert(s[i] == t[i - 1]);
                }
            } else {
                assert(s =~= full_rows(c) + (seq![rows[0]] + open_rows(rest)));
                if i < c {
                    assert(s[i] == ROW_MASK);
                } else if i == c {
                    assert(s[i] == rows[0]);
                } else {
                    assert(s[i] == open_rows(rest)[i - c - 1]);
                    assert(t[i - 1] == open_rows(rest)[i - 1 - c]);
                }
            }
        }
    }
}

/// A board is split after column `k` exactly when each of its four rows is
/// sealed at `k`.
proof fn lemma_split_rows(z: u64, k: u64)
    by (bit_vector)
    requires
        k <= 8,
    ensures
        split_after(z, k) == (row_sealed((z >> 0u64) & 1023, k) && row_sealed((z >> 10u64) & 1023, k)
            && row_sealed((z >> 20u64) & 1023, k) && row_sealed((z >> 30u64) & 1023, k)),
{
}

/// The rows of a stack of four ten-bit rows are those rows.
proof fn lemma_rows_of_stack(v: u64, r0: u64, r1: u64, r2: u64, r3: u64)
    by (bit_vector)
    requires
        r0 < 1024,
        r1 < 1024,
        r2 < 1024,
        r3 < 1024,
        v == r0 + 1024 * (r1 + 1024 * (r2 + 1024 * r3)),
    ensures
        (v >> 0u64) & 1023 == r0,
        (v >> 10u64) & 1023 == r1,
        (v >> 20u64) & 1023 == r2,
        (v >> 30u64) & 1023 == r3,
        v >> 40u64 == 0,
{
}

/// Adding disjoint cells keeps a split and adds their cells to each side.
proof fn lemma_add_cells(x: u64, c: u64, l: u64, k: u64)
    by (bit_vector)
    requires
        x & c == 0,
        k <= 8,
        c & !0xff_ffff_ffffu64 == 0,
        c & l == 0 || c & !l & 0xff_ffff_ffffu64 == 0,
    ensures
        (x | c) & l == (x & l) | (c & l),
        (x & l) & (c & l) == 0,
        c & l == 0 || c & l == c,
        split_after(x, k) ==> split_after(x | c, k),
{
}

/// The four rows of a board inside the four rows, after its full rows sink,
/// are the settled rows.
proof fn lemma_settled_rows(u: u64)
    requires
        u >> 40u64 == 0,
    ensures
        settled(u).len() == 4,
        rows_of(stack(settled(u)) as u64) == settled(u),
        (stack(settled(u)) as u64) >> 40u64 == 0,
        stack(settled(u)) < 0x100_0000_0000,
{
    let rows = rows_of(u);
    let st = settled(u);
    lemma_rows_fit(u);
    lemma_open_rows_len(rows);
    assert(rows_fit(full_rows(count_full(rows))));
    lemma_fit_concat(full_rows(count_full(rows)), open_rows(rows));
    assert(st.len() == 4);
    let d1 = st.drop_first();
    let d2 = d1.drop_first();
    let d3 = d2.drop_first();
    assert(d3.drop_first() =~= Seq::<u64>::empty());
    assert(d1[0] == st[1] && d2[0] == st[2] && d3[0] == st[3]);
    assert(stack(d3.drop_first()) == 0);
    assert(stack(d3) == st[3] + 1024 * stack(d3.drop_first()));
    assert(stack(d3) == st[3]);
    assert(stack(d2) == st[2] + 1024 * stack(d3));
    assert(stack(d1) == st[1] + 1024 * stack(d2));
    assert(stack(st) == st[0] + 1024 * stack(d1));
    assert(stack(st) == st[0] + 1024 * (st[1] + 1024 * (st[2] + 1024 * st[3])));
    assert(st[0] < 1024 && st[1] < 1024 && st[2] < 1024 && st[3] < 1024);
    assert(stack(st) < 0x100_0000_0000) by (nonlinear_arith)
        requires
            stack(st) == st[0] + 1024 * (st[1] + 1024 * (st[2] + 1024 * st[3])),
            st[0] < 1024 && st[1] < 1024 && st[2] < 1024 && st[3] < 1024,
    ;
    let y = stack(st) as u64;
    lemma_rows_of_stack(y, st[0], st[1], st[2], st[3]);
    assert(rows_of(y) =~= st);
}

/// Bit `j` of row value `r` is set.
spec fn bit_on(r: u64, j: u64) -> bool {
    (r >> j) & 1 == 1
}

/// The cell at column `j` of row value `r` is filled, or walled on both sides.
spec fn row_walled(r: u64, j: u64) -> bool {
    bit_on(r, j) || ((j == 0 || (r >> ((j - 1) as u64)) & 1 == 1) && (j == 9 || (r >> ((j + 1) as u64)) & 1 == 1))
}

/// Column `j` of a board inside the four rows is isolated exactly when, read
/// row by row, it is neither empty nor full and each row's cell there is
/// filled or walled on both sides.
proof fn lemma_isolated_rows(z: u64, j: u64)
    by (bit_vector)
    requires
        z >> 40u64 == 0,
    ensures
        isolated_at(z, j) == (j < 10 && (bit_on(((z >> 0u64) & 1023), j) || bit_on(((z >> 10u64) & 1023), j) || bit_on(((z >> 20u64) & 1023), j) || bit_on(((z >> 30u64) & 1023), j))
            && !(bit_on(((z >> 0u64) & 1023), j) && bit_on(((z >> 10u64) & 1023), j) && bit_on(((z >> 20u64) & 1023), j) && bit_on(((z >> 30u64) & 1023), j))
            && row_walled(((z >> 0u64) & 1023), j) && row_walled(((z >> 10u64) & 1023), j) && row_walled(((z >> 20u64) & 1023), j) && row_walled(((z >> 30u64) & 1023), j)),
{
}

/// Rows with the same multiset hold the same rows.
proof fn lemma_same_rows(a: Seq<u64>, b: Seq<u64>)
    requires
        a.to_multiset() =~= b.to_multiset(),
    ensures
        forall|v: u64| a.contains(v) == b.contains(v),
{
    broadcast use vstd::seq_lib::group_to_multiset_ensures;

    assert forall|v: u64| a.contains(v) == b.contains(v) by {
        assert(a.to_multiset().count(v) == b.to_multiset().count(v));
    }
}

/// Locking a piece in bounds into a board inside the four rows keeps an
/// isolated column: the piece cannot reach into it, and sinking full rows
/// only reorders rows.
pub proof fn lemma_place_keeps_isolation(p: Piece, b: Board)
    requires
        b.0 >> 40u64 == 0,
        p.spec_in_bounds(),
        p.place_ok(b),
        spec_has_isolated_cell(b.0),
    ensures
        spec_has_isolated_cell(p.spec_place(b).0),
{
    let x = b.0;
    let j = choose|j: u64| j < 64 && #[trigger] isolated_at(x, j);
    let c = p.cells();
    let pat = pattern(p.shape, p.rotation);
    let row = p.row as u64;
    let col = p.col as u64;
    lemma_in_bounds_defined(p);
    assert(c == pat << ((10 * row + col) as u64));
    crate::bits::lemma_halves(c, x);
    lemma_isolated_stays(x, pat, row, col, j);
    let u = x | c;
    lemma_inside_rows(x, c);
    let rows = rows_of(u);
    let st = settled(u);
    let y = p.spec_place(b).0;
    lemma_settled_rows(u);
    crate::board::lemma_settled_permutes(u);
    lemma_same_rows(st, rows);
    lemma_isolated_rows(u, j);
    lemma_isolated_rows(y, j);
    assert(rows_of(y) == st);
    assert forall|k: int| 0 <= k < 4 implies row_walled(#[trigger] st[k], j) by {
        assert(st.contains(st[k]));
        assert(rows.contains(st[k]));
        let i = choose|i: int| 0 <= i < rows.len() && rows[i] == st[k];
        assert(i == 0 || i == 1 || i == 2 || i == 3);
    }
    assert(exists|k: int| 0 <= k < 4 && bit_on(#[trigger] st[k], j)) by {
        let i = choose|i: int| 0 <= i < 4 && bit_on(#[trigger] rows[i], j);
        assert(rows.contains(rows[i]));
        assert(st.contains(rows[i]));
    }
    assert(exists|k: int| 0 <= k < 4 && !bit_on(#[trigger] st[k], j)) by {
        let i = choose|i: int| 0 <= i < 4 && !bit_on(#[trigger] rows[i], j);
        assert(rows.contains(rows[i]));
        assert(st.contains(rows[i]));
    }
    assert(isolated_at(y, j));
}

/// A board inside the four rows that the pruning tests rule out cannot be
/// cleared: locking a piece keeps an imbalanced split or an isolated column,
/// and the full board has neither.
pub proof fn lemma_pruned_board_keeps_defect(p: Piece, b: Board)
    requires
        b.0 >> 40u64 == 0,
        p.spec_in_bounds(),
        p.place_ok(b),
        !spec_is_pcable(b.0),
    ensures
        !spec_is_pcable(p.spec_place(b).0),
        p.spec_place(b).0 != 0b1111111111_1111111111_1111111111_1111111111u64,
{
    if spec_has_imbalanced_split(b.0) {
        lemma_place_keeps_imbalance(p, b);
    } else {
        lemma_place_keeps_isolation(p, b);
    }
    lemma_full_board_pcable();
}

/// The four rows of a word, and its cells in columns `0..=k`, are those of
/// its part inside the four rows.
proof fn lemma_low_part(u: u64, k: u64)
    by (bit_vector)
    requires
        k <= 7,
    ensures
        (u & 0xff_ffff_ffffu64) >> 40u64 == 0,
        (u >> 0u64) & 1023 == ((u & 0xff_ffff_ffffu64) >> 0u64) & 1023,
        (u >> 10u64) & 1023 == ((u & 0xff_ffff_ffffu64) >> 10u64) & 1023,
        (u >> 20u64) & 1023 == ((u & 0xff_ffff_ffffu64) >> 20u64) & 1023,
        (u >> 30u64) & 1023 == ((u & 0xff_ffff_ffffu64) >> 30u64) & 1023,
        u & (((0x40100401u64 << ((k + 1) as u64)) - 0x40100401u64) as u64) == (u & 0xff_ffff_ffffu64) & (((0x40100401u64 << ((k + 1) as u64)) - 0x40100401u64) as u64),
{
}

/// Locking a piece in bounds into a board keeps an imbalanced split: the
/// piece cannot cross the split without covering a filled cell, so it adds
/// four cells or none to the left part, and sinking full rows only reorders
/// rows (cells above the four rows leave the board and never counted).
pub proof fn lemma_place_keeps_imbalance(p: Piece, b: Board)
    requires
        p.spec_in_bounds(),
        p.place_ok(b),
        spec_has_imbalanced_split(b.0),
    ensures
        spec_has_imbalanced_split(p.spec_place(b).0),
{
    let x = b.0;
    let k = choose|k: u64| 1 <= k <= 7 && #[trigger] imbalanced_at(x, k);
    let c = p.cells();
    let pat = pattern(p.shape, p.rotation);
    let row = p.row as u64;
    let col = p.col as u64;
    let l = cols_upto_mask(k);
    lemma_cols_upto_formula(k);
    lemma_split_mask(x, k);
    lemma_in_bounds_defined(p);
    assert(c == pat << ((10 * row + col) as u64));
    crate::bits::lemma_halves(c, x);
    crate::bits::lemma_halves(c, 0xff_ffff_ffffu64);
    lemma_no_straddle(x, pat, row, col, k);
    lemma_add_cells(x, c, l, k);
    lemma_word_basics(c, 0);
    lemma_piece_cells(p);
    let u = x | c;
    lemma_popcount_or_disjoint(x & l, c & l);
    assert(popcount(u & l) % 4 == popcount(x & l) % 4);
    // only the four rows count: the cells above them leave the board
    let u2 = u & 0xff_ffff_ffffu64;
    lemma_low_part(u, k);
    assert(rows_of(u) =~= rows_of(u2));
    let rows = rows_of(u);
    let st = settled(u);
    assert(st == settled(u2));
    let y = p.spec_place(b).0;
    lemma_settled_rows(u2);
    lemma_left_cells(u2, k);
    lemma_left_cells(y, k);
    lemma_sink_keeps_cells_under(rows, low_mask(k));
    lemma_split_rows(u, k);
    lemma_split_rows(y, k);
    assert(all_sealed(rows, k));
    lemma_sink_keeps_sealed(rows, k);
    assert(all_sealed(st, k));
    assert(row_sealed(st[0], k) && row_sealed(st[1], k) && row_sealed(st[2], k) && row_sealed(st[3], k));
    assert(imbalanced_at(y, k));
}

/// A piece in bounds over no filled cell cannot reach into an isolated
/// column: each of its empty cells is walled on both sides, so a piece there
/// would lie in that column alone, and the column has fewer than four empty
/// cells.
proof fn lemma_isolated_stays(x: u64, pat: u64, row: u64, col: u64, j: u64)
    by (bit_vector)
    requires
        x >> 40u64 == 0,
        row <= 5,
        (pat == 15u64 && col <= 6u64) || (pat == 1031u64 && col <= 7u64) || (pat == 2055u64 && col <= 7u64) || (pat == 3075u64 && col <= 8u64) || (pat == 3078u64 && col <= 7u64) || (pat == 4103u64 && col <= 7u64) || (pat == 6147u64 && col <= 7u64) || (pat == 7169u64 && col <= 7u64) || (pat == 7170u64 && col <= 7u64) || (pat == 7172u64 && col <= 7u64) || (pat == 1049603u64 && col <= 8u64) || (pat == 1051649u64 && col <= 8u64) || (pat == 1051650u64 && col <= 8u64) || (pat == 2099203u64 && col <= 8u64) || (pat == 2100225u64 && col <= 8u64) || (pat == 2100226u64 && col <= 8u64) || (pat == 3146753u64 && col <= 8u64) || (pat == 3147778u64 && col <= 8u64) || (pat == 1074791425u64 && col <= 9u64),
        (pat << ((10 * row + col) as u64)) & !0xff_ffff_ffffu64 == 0,
        x & (pat << ((10 * row + col) as u64)) == 0,
        isolated_at(x, j),
    ensures
        isolated_at(x | (pat << ((10 * row + col) as u64)), j),
{
}

/// A word is nonzero exactly when one of its 64 bits is set.
proof fn lemma_nonzero_has_bit(x: u64)
    ensures
        (x != 0) == (exists|j: u64| j < 64 && #[trigger] ((x >> j) & 1) == 1),
{
    axiom_u64_trailing_zeros(x);
    if x != 0 {
        let t = u64_trailing_zeros(x) as u64;
        assert((x >> t) & 1 == 1);
    } else {
        assert forall|j: u64| j < 64 implies #[trigger] ((x >> j) & 1) != 1 by {
            lemma_word_basics(x, j);
        }
    }
}

/// Filled cells, and empty cells with both sides blocked.
spec fn enclosed_mask(x: u64) -> u64 {
    ((x << 1) | 0b0000000001_0000000001_0000000001_0000000001) & ((x >> 1)
        | 0b1000000000_1000000000_1000000000_1000000000) | x
}

/// Columns with at least one filled cell.
spec fn any_mask(x: u64) -> u64 {
    (x >> 30) | (x >> 20) | (x >> 10) | (x >> 0)
}

/// Columns whose four cells all satisfy `x`.
spec fn all_mask(x: u64) -> u64 {
    (x >> 30) & (x >> 20) & (x >> 10) & (x >> 0)
}

/// Bit `j` of the mask that `has_isolated_cell` computes says `isolated_at(x, j)`.
proof fn lemma_isolated_bit(x: u64, j: u64)
    by (bit_vector)
    requires
        j < 64,
    ensures
        (((any_mask(x) & !all_mask(x) & all_mask(enclosed_mask(x))) >> j) & 1 == 1) == isolated_at(x, j),
{
}


/// Blocked columns `k`/`k + 1` in every row, read off a mask.
proof fn lemma_split_mask(x: u64, k: u64)
    by (bit_vector)
    requires
        k < 8,
    ensures
        (((x | (x >> 1)) & (0b0000000001_0000000001_0000000001_0000000001u64 << k))
            == (0b0000000001_0000000001_0000000001_0000000001u64 << k)) == split_after(x, k),
{
}

/// Whether the board splits after the column of `col_mask` with a left part
/// (cells of `left_mask`) whose filled cells are not a multiple of four.
fn check_col(board: Board, col_mask: u64, left_mask: u64) -> (r: bool)
    ensures
        r == (((board.0 | (board.0 >> 1)) & col_mask) == col_mask && popcount(board.0 & left_mask)
            % 4 != 0),
{
    if (board.0 | (board.0 >> 1)) & col_mask == col_mask {
        let left = board.0 & left_mask;
        if count_ones(left) % 4 != 0 {
            return true;
        }
    }
    false
}

impl Board {
    /// Some column is neither empty nor full and every empty cell in it is
    /// blocked on both sides (see `isolated_at`).
    pub fn has_isolated_cell(self) -> (r: bool)
        ensures
            r == spec_has_isolated_cell(self.0),
    {
        let full = (self.0 >> 30) & (self.0 >> 20) & (self.0 >> 10) & (self.0 >> 0);
        let not_empty = (self.0 >> 30) | (self.0 >> 20) | (self.0 >> 10) | (self.0 >> 0);

        let left_bounded = (self.0 << 1) | 0b0000000001_0000000001_0000000001_0000000001;
        let right_bounded = (self.0 >> 1) | 0b1000000000_1000000000_1000000000_1000000000;
        let bounded_cells = (left_bounded & right_bounded) | self.0;
        let bounded = (bounded_cells >> 30) & (bounded_cells >> 20) & (bounded_cells >> 10) & (
        bounded_cells >> 0);

        let m = not_empty & !full & bounded;
        proof {
            let x = self.0;
            assert(m == any_mask(x) & !all_mask(x) & all_mask(enclosed_mask(x)));
            lemma_nonzero_has_bit(m);
            if m != 0 {
                let j = choose|j: u64| j < 64 && #[trigger] ((m >> j) & 1) == 1;
                lemma_isolated_bit(x, j);
            }
            if spec_has_isolated_cell(x) {
                let j = choose|j: u64| j < 64 && #[trigger] isolated_at(x, j);
                lemma_isolated_bit(x, j);
            }
        }
        m != 0
    }

    /// Some column `k` in `1..=7` splits the board (see `split_after`) with a
    /// number of filled cells in columns `0..=k` that is not a multiple of four.
    pub fn has_imbalanced_split(self) -> (r: bool)
        ensures
            r == spec_has_imbalanced_split(self.0),
    {
        let col_0: u64 = 0b0000000001_0000000001_0000000001_0000000001;
        let col_1: u64 = col_0 << 1;
        let col_2: u64 = col_0 << 2;
        let col_3: u64 = col_0 << 3;
        let col_4: u64 = col_0 << 4;
        let col_5: u64 = col_0 << 5;
        let col_6: u64 = col_0 << 6;
        let col_7: u64 = col_0 << 7;

        let left_0: u64 = col_0;
        let left_1: u64 = left_0 | col_1;
        let left_2: u64 = left_1 | col_2;
        let left_3: u64 = left_2 | col_3;
        let left_4: u64 = left_3 | col_4;
        let left_5: u64 = left_4 | col_5;
        let left_6: u64 = left_5 | col_6;
        let left_7: u64 = left_6 | col_7;

        proof {
            let x = self.0;
            assert(cols_upto_mask(0) == COL_MASK);
            assert(cols_upto_mask(1) == cols_upto_mask(0) | (COL_MASK << 1u64));
            assert(left_1 == cols_upto_mask(1));
            assert(left_2 == cols_upto_mask(2));
            assert(left_3 == cols_upto_mask(3));
            assert(left_4 == cols_upto_mask(4));
            assert(left_5 == cols_upto_mask(5));
            assert(left_6 == cols_upto_mask(6));
            assert(left_7 == cols_upto_mask(7));
            lemma_split_mask(x, 1);
            lemma_split_mask(x, 2);
            lemma_split_mask(x, 3);
            lemma_split_mask(x, 4);
            lemma_split_mask(x, 5);
            lemma_split_mask(x, 6);
            lemma_split_mask(x, 7);
            assert forall|k: u64| 1 <= k <= 7 && #[trigger] imbalanced_at(x, k) implies imbalanced_at(x, 1)
                || imbalanced_at(x, 2) || imbalanced_at(x, 3) || imbalanced_at(x, 4) || imbalanced_at(x, 5)
                || imbalanced_at(x, 6) || imbalanced_at(x, 7) by {
                if k != 1 && k != 2 && k != 3 && k != 4 && k != 5 && k != 6 {
                    assert(k == 7);
                }
            }
        }

        let r = false || check_col(self, col_1, left_1) || check_col(self, col_2, left_2) || check_col(
            self,
            col_3,
            left_3,
        ) || check_col(self, col_4, left_4) || check_col(self, col_5, left_5) || check_col(
            self,
            col_6,
            left_6,
        ) || check_col(self, col_7, left_7);
        proof {
            let x = self.0;
            if r {
                if imbalanced_at(x, 1) {
                } else if imbalanced_at(x, 2) {
                } else if imbalanced_at(x, 3) {
                } else if imbalanced_at(x, 4) {
                } else if imbalanced_at(x, 5) {
                } else if imbalanced_at(x, 6) {
                } else {
                    assert(imbalanced_at(x, 7));
                }
            }
        }
        r
    }

    /// No imbalanced split, no isolated column, and no cell above the four
    /// rows: the search keeps only such boards.
    pub fn is_pcable(self) -> (r: bool)
        ensures
            r == spec_is_pcable(self.0),
    {
        !self.has_imbalanced_split() && !self.has_isolated_cell() && (self.0 >> 40 == 0)
    }
}

} // verus!
