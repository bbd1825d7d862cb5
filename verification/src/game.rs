//! Turning what the game shows into search inputs, and deciding what to show.

use vstd::prelude::*;
use crate::board::Board;
use crate::shape::{Shape, spec_from_ppt, shape_index, lemma_shape_index_bijective};
use crate::piece::Piece;
use crate::prune::cell_set;
use crate::solution::{soln_defined_from, first_pc_from, pc_with, raised};
use crate::search::{search_pc, playable, shapes_of, clear_owed};
use crate::queue::encode;
use crate::stage::copy_pieces;
use crate::bits::{lemma_word_basics, popcount};

verus! {

/// Cell `q` (`10 * row + col`) of the field the game shows: a column holds
/// `-1` for an empty cell.
pub open spec fn shown_cell(columns: Seq<Vec<i32>>, q: int) -> bool {
    columns[q % 10]@[q / 10] != -1
}

proof fn lemma_push_bit(b: u64, v: u64, t: u64)
    by (bit_vector)
    requires
        v <= 1,
        t < 63,
    ensures
        (((b << 1u64) | v) >> ((t + 1) as u64)) & 1 == (b >> t) & 1,
        (((b << 1u64) | v) >> 0u64) & 1 == v,
{
}

proof fn lemma_push_bound(b: u64, v: u64, n: u64)
    by (bit_vector)
    requires
        v <= 1,
        n < 40,
        b < (1u64 << n),
    ensures
        (b << 1u64) | v < (1u64 << ((n + 1) as u64)),
{
}

/// The bit board of the field the game shows: `columns[col][row]` is `-1`
/// for an empty cell, anything else for a filled one.
pub fn board_from_columns(columns: &Vec<Vec<i32>>) -> (b: Board)
    requires
        columns@.len() >= 10,
        forall|j: int| 0 <= j < 10 ==> #[trigger] columns@[j]@.len() >= 4,
    ensures
        forall|q: u64| q < 40 ==> #[trigger] cell_set(b.0, q) == shown_cell(columns@, q as int),
        b.0 >> 40u64 == 0,
{
    let mut bit_board: u64 = 0;
    let mut k: u64 = 40;
    proof {
        lemma_word_basics(0, 0);
    }
    while k > 0
        invariant
            k <= 40,
            columns@.len() >= 10,
            forall|j: int| 0 <= j < 10 ==> #[trigger] columns@[j]@.len() >= 4,
            bit_board < (1u64 << ((40 - k) as u64)),
            forall|q: u64| k <= q < 40 ==> #[trigger] cell_set(bit_board, (q - k) as u64) == shown_cell(columns@, q as int),
        decreases k,
    {
        k = k - 1;
        let i = (k / 10) as usize;
        let j = (k % 10) as usize;
        let v: u64 = if columns[j][i] == -1 { 0 } else { 1 };
        let ghost old_b = bit_board;
        proof {
            lemma_push_bound(old_b, v, (40 - k - 1) as u64);
        }
        bit_board = bit_board << 1;
        bit_board = bit_board | v;
        proof {
            assert forall|q: u64| k <= q < 40 implies #[trigger] cell_set(bit_board, (q - k) as u64)
                == shown_cell(columns@, q as int) by {
                if q == k {
                    lemma_push_bit(old_b, v, 0);
                } else {
                    lemma_push_bit(old_b, v, (q - k - 1) as u64);
                    assert(cell_set(old_b, (q - (k + 1)) as u64) == shown_cell(columns@, q as int));
                }
            }
        }
    }
    proof {
        lemma_word_basics(bit_board, 0);
        assert forall|q: u64| q < 40 implies #[trigger] cell_set(bit_board, q) == shown_cell(columns@, q as int) by {
            assert(cell_set(bit_board, (q - 0) as u64) == shown_cell(columns@, q as int));
        }
    }
    Board(bit_board)
}

/// The queue the game shows: the five next pieces, then the seven pieces of
/// the bag from position `piece_count` on, decoded from the game's numbers.
pub fn queue_from_ppt(next_pieces: &Vec<u32>, bag_pieces: &Vec<u32>, piece_count: u32) -> (q: Vec<Shape>)
    requires
        forall|k: int| 0 <= k < next_pieces@.len() ==> #[trigger] next_pieces@[k] < 7,
        forall|k: int| 0 <= k < bag_pieces@.len() ==> #[trigger] bag_pieces@[k] < 7,
        piece_count + 7 <= bag_pieces@.len(),
        piece_count + 7 <= u32::MAX,
    ensures
        q@ == next_pieces@.map_values(|v: u32| spec_from_ppt(v)) + bag_pieces@.subrange(
            piece_count as int,
            piece_count + 7,
        ).map_values(|v: u32| spec_from_ppt(v)),
{
    let mut queue: Vec<Shape> = Vec::new();
    let mut k: usize = 0;
    while k < next_pieces.len()
        invariant
            k <= next_pieces@.len(),
            forall|k: int| 0 <= k < next_pieces@.len() ==> #[trigger] next_pieces@[k] < 7,
            queue@ == next_pieces@.subrange(0, k as int).map_values(|v: u32| spec_from_ppt(v)),
        decreases next_pieces.len() - k,
    {
        queue.push(Shape::from_ppt(next_pieces[k]));
        k += 1;
        assert(queue@ =~= next_pieces@.subrange(0, k as int).map_values(|v: u32| spec_from_ppt(v)));
    }
    assert(next_pieces@.subrange(0, k as int) =~= next_pieces@);
    let mut bag: Vec<Shape> = Vec::new();
    let mut k: usize = 0;
    while k < bag_pieces.len()
        invariant
            k <= bag_pieces@.len(),
            forall|k: int| 0 <= k < bag_pieces@.len() ==> #[trigger] bag_pieces@[k] < 7,
            bag@ == bag_pieces@.subrange(0, k as int).map_values(|v: u32| spec_from_ppt(v)),
        decreases bag_pieces.len() - k,
    {
        bag.push(Shape::from_ppt(bag_pieces[k]));
        k += 1;
        assert(bag@ =~= bag_pieces@.subrange(0, k as int).map_values(|v: u32| spec_from_ppt(v)));
    }
    assert(bag_pieces@.subrange(0, k as int) =~= bag_pieces@);
    let ghost head = queue@;
    let mut i = piece_count;
    while i < piece_count + 7
        invariant
            piece_count <= i <= piece_count + 7,
            piece_count + 7 <= u32::MAX,
            piece_count + 7 <= bag@.len(),
            bag@ == bag_pieces@.map_values(|v: u32| spec_from_ppt(v)),
            queue@ == head + bag_pieces@.subrange(piece_count as int, i as int).map_values(|v: u32| spec_from_ppt(v)),
        decreases piece_count + 7 - i,
    {
        queue.push(bag[i as usize]);
        i += 1;
        assert(queue@ =~= head + bag_pieces@.subrange(piece_count as int, i as int).map_values(
            |v: u32| spec_from_ppt(v),
        ));
    }
    queue
}

fn shape_eq(a: Shape, b: Shape) -> (r: bool)
    ensures
        r == (a == b),
{
    proof {
        lemma_shape_index_bijective(a);
        lemma_shape_index_bijective(b);
    }
    a.index() == b.index()
}

fn option_shape_eq(a: Option<Shape>, b: Option<Shape>) -> (r: bool)
    ensures
        r == (a == b),
{
    match (a, b) {
        (None, None) => true,
        (Some(x), Some(y)) => shape_eq(x, y),
        _ => false,
    }
}

fn shapes_eq(a: &Vec<Shape>, b: &Vec<Shape>) -> (r: bool)
    ensures
        r == (a@ == b@),
{
    if a.len() != b.len() {
        return false;
    }
    let mut i: usize = 0;
    while i < a.len()
        invariant
            i <= a.len(),
            a.len() == b.len(),
            forall|j: int| 0 <= j < i ==> a@[j] == b@[j],
        decreases a.len() - i,
    {
        if !shape_eq(a[i], b[i]) {
            return false;
        }
        i += 1;
    }
    assert(a@ =~= b@);
    true
}

/// What the game showed last time it was reported.
pub struct Watcher {
    pub prev_queue: Vec<Shape>,
    pub prev_piece: Option<Shape>,
    pub prev_hold: Option<Shape>,
    pub prev_board: Option<u64>,
}

/// A reading of the game is worth reporting: not the same board with the
/// same hold, not the same queue with the same hold, and not the same piece
/// in hand as last reported.
pub open spec fn worth_reporting(
    w: Watcher,
    board: u64,
    piece: Shape,
    queue: Seq<Shape>,
    hold: Option<Shape>,
) -> bool {
    &&& !(w.prev_board == Some(board) && w.prev_hold == hold)
    &&& !(w.prev_queue@ == queue && w.prev_hold == hold)
    &&& w.prev_piece != Some(piece)
}

impl Watcher {
    /// Nothing reported yet.
    pub fn new() -> (w: Watcher)
        ensures
            w.prev_queue@.len() == 0,
            w.prev_piece is None,
            w.prev_hold is None,
            w.prev_board is None,
    {
        Watcher { prev_queue: Vec::new(), prev_piece: None, prev_hold: None, prev_board: None }
    }

    /// Whether a reading of the game is to be reported (see
    /// `worth_reporting`); one that is becomes the last reported reading.
    pub fn observe(&mut self, board: u64, piece: Shape, queue: &Vec<Shape>, hold: Option<Shape>) -> (r: bool)
        ensures
            r == worth_reporting(*old(self), board, piece, queue@, hold),
            r ==> final(self).prev_board == Some(board) && final(self).prev_hold == hold
                && final(self).prev_piece == Some(piece) && final(self).prev_queue@ == queue@,
            !r ==> *final(self) == *old(self),
    {
        let same_board = match self.prev_board {
            Some(b) => b == board,
            None => false,
        };
        let same_hold = option_shape_eq(self.prev_hold, hold);
        if same_board && same_hold {
            return false;
        }
        if shapes_eq(&self.prev_queue, queue) && same_hold {
            return false;
        }
        let same_piece = match self.prev_piece {
            Some(p) => shape_eq(p, piece),
            None => false,
        };
        if same_piece {
            return false;
        }
        self.prev_board = Some(board);
        self.prev_hold = hold;
        self.prev_piece = Some(piece);
        self.prev_queue = queue.clone();
        assert(self.prev_queue@ =~= queue@);
        true
    }
}

/// What to draw: the board raised by `lines` rows and the pieces to place.
pub struct Plan {
    pub board: Board,
    pub pieces: Vec<Piece>,
    pub lines: usize,
}

/// Keeps the solution being followed between readings of the game.
pub struct Planner {
    pub prev_solution: Vec<Piece>,
}

impl Planner {
    /// No solution followed yet.
    pub fn new() -> (p: Planner)
        ensures
            p.prev_solution@.len() == 0,
    {
        Planner { prev_solution: Vec::new() }
    }

    /// Answers a reading of the game. When the board is not empty and a
    /// solution is being followed, its first piece counts as placed; if the
    /// rest still gives a perfect clear of the board (`soln_can_pc`), that
    /// is the plan. Otherwise a new search gives the plan, which is then
    /// followed. `None` when the rest of the followed solution cannot even be
    /// checked against the board (a piece of it asks for a cell offset
    /// outside the word).
    pub fn respond(&mut self, board: Board, piece: Shape, queue: Vec<Shape>, hold: Option<Shape>) -> (r:
        Option<Plan>)
        ensures
            ({
                let kept = old(self).prev_solution@.drop_first();
                if board.0 != 0 && old(self).prev_solution@.len() > 0 && !soln_defined_from(board, kept, 0) {
                    r is None
                } else if board.0 != 0 && old(self).prev_solution@.len() > 0 && first_pc_from(board, kept, 0) is Some {
                    let i = first_pc_from(board, kept, 0).unwrap();
                    &&& r matches Some(plan) && plan.lines == i && plan.board == Board(raised(board.0, i as int))
                        && plan.pieces@ == kept
                    &&& final(self).prev_solution@ == kept
                } else {
                    &&& r matches Some(plan) && plan.lines < 4 && plan.board == Board(raised(board.0, plan.lines as int))
                        && (popcount(board.0) % 4 == 1 || popcount(board.0) % 4 == 3 ==> plan.pieces@.len() == 0)
                        && (plan.pieces@.len() == 0 ==> plan.lines == 0)
                        && (plan.pieces@.len() > 0 ==> {
                            &&& popcount(board.0) % 4 == 0 ==> plan.lines == 2 || plan.lines == 0
                            &&& popcount(board.0) % 4 == 2 ==> plan.lines == 3 || plan.lines == 1
                            &&& pc_with(board, plan.pieces@, plan.lines as int)
                            &&& playable((piece, encode(queue@), hold), shapes_of(plan.pieces@))
                            &&& clear_owed(board, plan.lines as int, (piece, encode(queue@), hold))
                            &&& popcount(board.0) % 4 == 0 && plan.lines == 0 ==> !clear_owed(board, 2, (piece, encode(queue@), hold))
                            &&& popcount(board.0) % 4 == 2 && plan.lines == 1 ==> !clear_owed(board, 3, (piece, encode(queue@), hold))
                        })
                        && (popcount(board.0) % 4 == 0 && (clear_owed(board, 2, (piece, encode(queue@), hold))
                            || clear_owed(board, 0, (piece, encode(queue@), hold))) ==> plan.pieces@.len() > 0)
                        && (popcount(board.0) % 4 == 2 && (clear_owed(board, 3, (piece, encode(queue@), hold))
                            || clear_owed(board, 1, (piece, encode(queue@), hold))) ==> plan.pieces@.len() > 0)
                    &&& final(self).prev_solution@ == r.unwrap().pieces@
                }
            }),
    {
        if !board.is_empty() && !self.prev_solution.is_empty() {
            self.prev_solution.remove(0);
            assert(self.prev_solution@ =~= old(self).prev_solution@.drop_first());
            if !board.solution_checkable(&self.prev_solution) {
                return None;
            }
            match board.soln_can_pc(&self.prev_solution) {
                Some(i) => {
                    return Some(Plan { board: board.add_lines(i), pieces: copy_pieces(&self.prev_solution), lines: i });
                },
                None => {},
            }
        }
        let res = search_pc(board, piece, queue, hold);
        self.prev_solution = copy_pieces(&res.0);
        Some(Plan { board: board.add_lines(res.1), pieces: res.0, lines: res.1 })
    }
}

} // verus!
