//! The cell letters a solution is drawn with.

use vstd::prelude::*;
use crate::board::{Board, BOARD_MASK};
use crate::piece::{Piece, offset_ok};
use crate::prune::cell_set;
use crate::shape::spec_name;

verus! {

/// The letters a drawn cell may hold: `-` empty, `?` filled before the
/// solution, `x` the first piece, or the letter of a later piece's shape.
pub open spec fn drawn_char(c: char) -> bool {
    c == '-' || c == '?' || c == 'x' || c == 'I' || c == 'J' || c == 'L' || c == 'O' || c == 'S'
        || c == 'T' || c == 'Z'
}

/// The fifty letters before any piece is drawn: `?` on the filled cells of
/// the four rows of `x`, `-` everywhere else.
pub open spec fn board_letters(x: u64) -> Seq<char> {
    Seq::new(50, |k: int| if 0 <= k < 40 && cell_set(x, k as u64) { '?' } else { '-' })
}

/// Row `i` of a piece's cells `bits` drawn with `name` into row `row` of the
/// letters `t`.
pub open spec fn draw_row(t: Seq<char>, bits: u64, i: int, row: int, name: char) -> Seq<char> {
    Seq::new(
        t.len(),
        |k: int|
            if 10 * row <= k < 10 * row + 10 && cell_set(bits, (10 * i + k - 10 * row) as u64) {
                name
            } else {
                t[k]
            },
    )
}

/// Row `row` of the letters `t` holds no `-`.
pub open spec fn row_drawn_full(t: Seq<char>, row: int) -> bool {
    forall|j: int| 0 <= j < 10 ==> #[trigger] t[10 * row + j] != '-'
}

/// Draws rows `i` to 3 of a piece's cells `bits`, row `k` into row
/// `order[k]` of the letters; a row that becomes full moves to the front of
/// the order. Gives the letters and the order after.
pub open spec fn draw_rows(t: Seq<char>, order: Seq<usize>, bits: u64, name: char, i: int) -> (
    Seq<char>,
    Seq<usize>,
)
    decreases 4 - i,
{
    if i < 0 || i >= 4 {
        (t, order)
    } else {
        let row = order[i] as int;
        let t2 = draw_row(t, bits, i, row, name);
        let order2 = if row_drawn_full(t2, row) {
            order.remove(i).insert(0, order[i])
        } else {
            order
        };
        draw_rows(t2, order2, bits, name, i + 1)
    }
}

/// Draws `pieces` one after the other: the first as `x` when `first`, the
/// others by their shape's letter.
pub open spec fn draw_pieces(t: Seq<char>, order: Seq<usize>, pieces: Seq<Piece>, first: bool) -> Seq<
    char,
>
    decreases pieces.len(),
{
    if pieces.len() == 0 {
        t
    } else {
        let name = if first { 'x' } else { spec_name(pieces[0].shape) };
        let (t2, order2) = draw_rows(t, order, pieces[0].cells(), name, 0);
        draw_pieces(t2, order2, pieces.drop_first(), false)
    }
}

proof fn lemma_shift_one(b: u64, k: u64)
    by (bit_vector)
    requires
        k < 64,
    ensures
        (b >> 1u64) >> k == b >> ((k + 1) as u64),
        (b >> k) >> 1u64 == b >> ((k + 1) as u64),
        (b & 1 == 1) == ((b >> 0u64) & 1 == 1),
        k <= 40 && (b >> k) != 0 && b >> 40u64 == 0 ==> k < 40,
        b >> k == 0 ==> forall|j: u64| k <= j < 64 ==> #[trigger] ((b >> j) & 1) == 0,
{
}

proof fn lemma_bit_test(b: u64, k: u64)
    by (bit_vector)
    requires
        k < 64,
    ensures
        ((b >> k) & 1 != 0) == ((b >> k) & 1 == 1),
{
}

/// The fifty cell letters a solution is drawn with, row by row from the
/// bottom (cell `10 * row + col`): filled cells of `board` are `?`, the
/// first piece of `pieces` is drawn as `x` and the others by their shape's
/// letter; when a drawn row becomes full, the row order used for the next
/// pieces moves it to the bottom, the way the game clears it.
pub fn render_cells(board: Board, pieces: &Vec<Piece>) -> (cells: Vec<char>)
    requires
        forall|i: int| 0 <= i < pieces@.len() ==> offset_ok(#[trigger] pieces@[i].row as int, pieces@[i].col as int),
    ensures
        cells@ == draw_pieces(board_letters(board.0), seq![0usize, 1, 2, 3], pieces@, true),
        cells@.len() == 50,
        forall|k: int| 40 <= k < 50 ==> cells@[k] == '-',
        forall|k: int| 0 <= k < 50 ==> drawn_char(#[trigger] cells@[k]),
        forall|k: u64| k < 40 && cell_set(board.0, k) ==> cells@[k as int] != '-',
        pieces@.len() == 0 ==> forall|k: u64| k < 40 ==> (#[trigger] cells@[k as int] == '?') == cell_set(board.0, k),
        pieces@.len() == 0 ==> forall|k: u64| k < 40 ==> (#[trigger] cells@[k as int] == '-') == !cell_set(board.0, k),
{
    let mut temp: Vec<char> = Vec::new();
    while temp.len() < 50
        invariant
            temp@.len() <= 50,
            forall|k: int| 0 <= k < temp@.len() ==> temp@[k] == '-',
        decreases 50 - temp.len(),
    {
        temp.push('-');
    }
    let mut b = board.0 & BOARD_MASK;
    let mut count: u64 = 0;
    proof {
        let x = board.0;
        assert(((x & BOARD_MASK) >> 40u64) == 0 && (forall|k: u64| k < 40 ==> (((x & BOARD_MASK)
            >> k) & 1 == 1) == ((x >> k) & 1 == 1)) && (x & BOARD_MASK) >> 0u64 == x & BOARD_MASK)
            by (bit_vector);
    }
    let ghost m = board.0 & BOARD_MASK;
    while b != 0
        invariant
            count <= 40,
            temp@.len() == 50,
            b == m >> count,
            m >> 40u64 == 0,
            forall|k: u64| k < 40 ==> ((m >> k) & 1 == 1) == cell_set(board.0, k),
            forall|k: int| count <= k < 50 ==> temp@[k] == '-',
            forall|k: u64| k < count ==> (temp@[k as int] == '?') == cell_set(board.0, k),
            forall|k: u64| k < count ==> (temp@[k as int] == '-') == !cell_set(board.0, k),
        decreases 40 - count,
    {
        proof {
            lemma_shift_one(m, count);
            lemma_shift_one(m >> count, 0);
        }
        if b & 1 == 1 {
            temp.set(count as usize, '?');
        }
        count += 1;
        b >>= 1;
    }
    proof {
        lemma_shift_one(m, count);
        assert forall|k: u64| count <= k < 40 implies !cell_set(board.0, k) by {
            assert(((m >> k) & 1) == 0);
        }
        assert forall|k: int| 0 <= k < 50 implies temp@[k] == board_letters(board.0)[k] by {
            if k < 40 {
                let ku = k as u64;
                assert((temp@[ku as int] == '?') == cell_set(board.0, ku) || ku >= count);
                assert((temp@[ku as int] == '-') == !cell_set(board.0, ku) || ku >= count);
            }
        }
        assert(temp@ =~= board_letters(board.0));
    }

    let mut map: Vec<usize> = Vec::new();
    map.push(0);
    map.push(1);
    map.push(2);
    map.push(3);
    proof {
        assert(map@ =~= seq![0usize, 1, 2, 3]);
        assert(pieces@.subrange(0, pieces@.len() as int) =~= pieces@);
    }
    let mut first = true;
    let mut n: usize = 0;
    while n < pieces.len()
        invariant
            n <= pieces@.len(),
            first == (n == 0),
            draw_pieces(temp@, map@, pieces@.subrange(n as int, pieces@.len() as int), first)
                == draw_pieces(board_letters(board.0), seq![0usize, 1, 2, 3], pieces@, true),
            temp@.len() == 50,
            map@.len() == 4,
            forall|k: int| 0 <= k < 4 ==> #[trigger] map@[k] < 4,
            forall|k: int| 40 <= k < 50 ==> temp@[k] == '-',
            forall|k: int| 0 <= k < 50 ==> drawn_char(#[trigger] temp@[k]),
            forall|k: u64| k < 40 && cell_set(board.0, k) ==> temp@[k as int] != '-',
            pieces@.len() == 0 ==> forall|k: u64| k < 40 ==> (#[trigger] temp@[k as int] == '?') == cell_set(board.0, k),
            pieces@.len() == 0 ==> forall|k: u64| k < 40 ==> (#[trigger] temp@[k as int] == '-') == !cell_set(board.0, k),
            forall|i: int| 0 <= i < pieces@.len() ==> offset_ok(#[trigger] pieces@[i].row as int, pieces@[i].col as int),
        decreases pieces.len() - n,
    {
        let piece = pieces[n];
        let bits = piece.as_bits();
        let name = if first { 'x' } else { piece.shape.name() };
        let ghost rest = pieces@.subrange(n as int, pieces@.len() as int);
        let ghost drawn = draw_rows(temp@, map@, bits, name, 0);
        proof {
            assert(rest[0] == piece);
            assert(rest.drop_first() =~= pieces@.subrange(n + 1, pieces@.len() as int));
        }
        let mut i: usize = 0;
        while i < 4
            invariant
                i <= 4,
                draw_rows(temp@, map@, bits, name, i as int) == drawn,
                drawn_char(name),
                name != '-',
                temp@.len() == 50,
                map@.len() == 4,
                forall|k: int| 0 <= k < 4 ==> #[trigger] map@[k] < 4,
                forall|k: int| 40 <= k < 50 ==> temp@[k] == '-',
                forall|k: int| 0 <= k < 50 ==> drawn_char(#[trigger] temp@[k]),
                forall|k: u64| k < 40 && cell_set(board.0, k) ==> temp@[k as int] != '-',
            decreases 4 - i,
        {
            let row = map[i];
            let ghost before = temp@;
            let mut j: usize = 0;
            while j < 10
                invariant
                    j <= 10,
                    row < 4,
                    i < 4,
                    drawn_char(name),
                    name != '-',
                    temp@.len() == 50,
                    temp@ == Seq::new(
                        50,
                        |k: int|
                            if 10 * row <= k < 10 * row + j && cell_set(bits, (10 * i + k - 10 * row) as u64) {
                                name
                            } else {
                                before[k]
                            },
                    ),
                    before.len() == 50,
                    forall|k: int| 40 <= k < 50 ==> before[k] == '-',
                    forall|k: int| 0 <= k < 50 ==> drawn_char(#[trigger] before[k]),
                decreases 10 - j,
            {
                let ghost cur = temp@;
                proof {
                    lemma_bit_test(bits, (i * 10 + j) as u64);
                }
                if (bits >> ((i * 10 + j) as u64)) & 1 != 0 {
                    temp.set(row * 10 + j, name);
                }
                j += 1;
                proof {
                    assert(temp@ =~= Seq::new(
                        50,
                        |k: int|
                            if 10 * row <= k < 10 * row + j && cell_set(bits, (10 * i + k - 10 * row) as u64) {
                                name
                            } else {
                                before[k]
                            },
                    ));
                }
            }
            proof {
                assert(temp@ =~= draw_row(before, bits, i as int, row as int, name));
                assert forall|k: int| 0 <= k < 50 implies drawn_char(#[trigger] temp@[k]) by {
                    assert(temp@[k] == name || temp@[k] == before[k]);
                }
                assert forall|k: u64| k < 40 && cell_set(board.0, k) implies temp@[k as int] != '-' by {
                    assert(temp@[k as int] == name || temp@[k as int] == before[k as int]);
                }
            }
            let mut full = true;
            let mut j: usize = 0;
            while j < 10 && full
                invariant
                    j <= 10,
                    row < 4,
                    temp@.len() == 50,
                    full ==> forall|c: int| 0 <= c < j ==> #[trigger] temp@[10 * row + c] != '-',
                    !full ==> !row_drawn_full(temp@, row as int),
                decreases 10 - j, if full { 1int } else { 0int },
            {
                if temp[row * 10 + j] == '-' {
                    assert(temp@[10 * row + j as int] == '-');
                    full = false;
                } else {
                    j += 1;
                }
            }
            let ghost old_map = map@;
            if full {
                let t = map[i];
                let ghost before = map@;
                map.remove(i);
                proof {
                    assert forall|k: int| 0 <= k < 3 implies #[trigger] map@[k] < 4 by {
                        if k < i {
                            assert(map@[k] == before[k]);
                        } else {
                            assert(map@[k] == before[k + 1]);
                        }
                    }
                }
                let ghost removed = map@;
                map.insert(0, t);
                proof {
                    assert forall|k: int| 0 <= k < 4 implies #[trigger] map@[k] < 4 by {
                        if k > 0 {
                            assert(map@[k] == removed[k - 1]);
                        }
                    }
                    assert(map@ == old_map.remove(i as int).insert(0, old_map[i as int]));
                }
            }
            i += 1;
        }
        proof {
            assert(draw_rows(temp@, map@, bits, name, 4) == (temp@, map@));
        }
        first = false;
        n += 1;
    }
    proof {
        assert(pieces@.subrange(n as int, pieces@.len() as int) =~= Seq::<Piece>::empty());
    }
    temp
}

} // verus!
