//! Checking that a list of placements still gives a perfect clear.

use vstd::prelude::*;
use crate::board::{Board, BOARD_MASK, low_rows_mask};
use crate::piece::Piece;
use crate::prune::spec_is_pcable;

verus! {

/// The board raised by `n` rows with `n` full rows filled in below.
pub open spec fn raised(x: u64, n: int) -> u64 {
    (x << ((10 * n) as u64)) | low_rows_mask(n)
}

/// Locks the pieces of `sol` one after the other, starting on `b`: returns
/// the last board and whether every lock happened and left a board from which
/// a perfect clear stays possible (`ok` must hold on entry too). A piece that
/// cannot be placed, or that covers a filled cell, ends the run with `false`.
pub open spec fn play(b: Board, sol: Seq<Piece>, ok: bool) -> (Board, bool)
    decreases sol.len(),
{
    if sol.len() == 0 {
        (b, ok)
    } else if sol[0].spec_can_place(b) && sol[0].cells() & b.0 == 0 {
        let nb = sol[0].spec_place(b);
        play(nb, sol.drop_first(), ok && spec_is_pcable(nb.0))
    } else {
        (b, false)
    }
}

/// `play` from `b` only asks `can_place` and `place` for what they are
/// defined on.
pub open spec fn play_defined(b: Board, sol: Seq<Piece>) -> bool
    decreases sol.len(),
{
    if sol.len() == 0 {
        true
    } else {
        &&& sol[0].place_defined()
        &&& sol[0].spec_can_place(b) && sol[0].cells() & b.0 == 0 ==> play_defined(
            sol[0].spec_place(b),
            sol.drop_first(),
        )
    }
}

/// Raised by `i` rows, `b` is a board from which a perfect clear is possible,
/// and `sol` then locks piece by piece into the full board, every board on
/// the way keeping a perfect clear possible.
pub open spec fn pc_with(b: Board, sol: Seq<Piece>, i: int) -> bool {
    let start = Board(raised(b.0, i));
    let (last, ok) = play(start, sol, true);
    spec_is_pcable(start.0) && ok && last.0 == BOARD_MASK
}

/// The first number of raised rows, from `i` up to 3, for which `pc_with` holds.
pub open spec fn first_pc_from(b: Board, sol: Seq<Piece>, i: int) -> Option<usize>
    decreases 4 - i,
{
    if i >= 4 || i < 0 {
        None
    } else if pc_with(b, sol, i) {
        Some(i as usize)
    } else {
        first_pc_from(b, sol, i + 1)
    }
}

/// The check of `sol` on `b`, tried with `i`, `i + 1`, ... raised rows until
/// one succeeds, only asks `can_place` and `place` for what they are defined on.
pub open spec fn soln_defined_from(b: Board, sol: Seq<Piece>, i: int) -> bool
    decreases 4 - i,
{
    if i >= 4 || i < 0 {
        true
    } else {
        &&& spec_is_pcable(raised(b.0, i)) ==> play_defined(Board(raised(b.0, i)), sol)
        &&& pc_with(b, sol, i) || soln_defined_from(b, sol, i + 1)
    }
}

/// A run that ended with every lock done and every board clearable can
/// be continued by one more piece.
pub proof fn lemma_play_push(b: Board, a: Seq<Piece>, p: Piece, ok: bool)
    requires
        play(b, a, ok).1,
    ensures
        play(b, a.push(p), ok) == play(play(b, a, ok).0, seq![p], true),
    decreases a.len(),
{
    if a.len() == 0 {
        assert(a.push(p) =~= seq![p]);
    } else {
        assert(a.push(p)[0] == a[0]);
        assert(a.push(p).drop_first() =~= a.drop_first().push(p));
        if a[0].spec_can_place(b) && a[0].cells() & b.0 == 0 {
            let nb = a[0].spec_place(b);
            lemma_play_push(nb, a.drop_first(), p, ok && spec_is_pcable(nb.0));
        }
    }
}

/// `place_defined` of a piece.
fn place_defined_check(p: Piece) -> (r: bool)
    ensures
        r == p.place_defined(),
{
    p.offset_defined() && (p.row < 1 || Piece { row: p.row - 1, ..p }.offset_defined())
}

impl Board {
    /// Whether `soln_can_pc` is defined on `solution`: no piece it tries asks
    /// for a cell offset outside the word, until a perfect clear is found.
    pub fn solution_checkable(self, solution: &Vec<Piece>) -> (r: bool)
        ensures
            r == soln_defined_from(self, solution@, 0),
    {
        let ghost sol = solution@;
        let mut i: usize = 0;
        while i < 4
            invariant
                i <= 4,
                sol == solution@,
                soln_defined_from(self, sol, 0) == soln_defined_from(self, sol, i as int),
            decreases 4 - i,
        {
            let start = self.add_lines(i);
            if !start.is_pcable() {
                i = i + 1;
                continue;
            }
            let mut board = start;
            let mut flag = true;
            let mut stopped = false;
            let mut k: usize = 0;
            proof {
                assert(sol.subrange(0, sol.len() as int) =~= sol);
            }
            while k < solution.len() && !stopped
                invariant
                    k <= solution.len(),
                    sol == solution@,
                    i < 4,
                    start.0 == raised(self.0, i as int),
                    spec_is_pcable(start.0),
                    soln_defined_from(self, sol, 0) == soln_defined_from(self, sol, i as int),
                    stopped ==> play(start, sol, true) == (board, false) && play_defined(start, sol),
                    stopped ==> !flag,
                    !stopped ==> play(start, sol, true) == play(board, sol.subrange(k as int, sol.len() as int), flag),
                    !stopped ==> play_defined(start, sol) == play_defined(board, sol.subrange(k as int, sol.len() as int)),
                decreases solution.len() - k, if stopped { 0int } else { 1int },
            {
                let piece = solution[k];
                let ghost sub = sol.subrange(k as int, sol.len() as int);
                proof {
                    assert(sub[0] == piece);
                    assert(sub.drop_first() =~= sol.subrange(k + 1, sol.len() as int));
                }
                if !place_defined_check(piece) {
                    return false;
                }
                if piece.can_place(board) && piece.as_bits() & board.0 == 0 {
                    board = piece.place(board);
                    if !board.is_pcable() {
                        flag = false;
                    }
                    k = k + 1;
                } else {
                    flag = false;
                    stopped = true;
                }
            }
            proof {
                if !stopped {
                    assert(sol.subrange(k as int, sol.len() as int) =~= Seq::<Piece>::empty());
                }
            }
            if flag && board.is_pc() {
                return true;
            }
            i = i + 1;
        }
        true
    }

    /// The number of rows (0 to 3) by which the board must be raised, with
    /// full rows below, for `solution` to lock in piece by piece into a
    /// perfect clear with every board on the way still clearable; a piece
    /// that cannot lock, or that would cover a filled cell, fails that number.
    /// `None` when no number works.
    pub fn soln_can_pc(self, solution: &Vec<Piece>) -> (r: Option<usize>)
        requires
            soln_defined_from(self, solution@, 0),
        ensures
            r == first_pc_from(self, solution@, 0),
            r matches Some(i) ==> i < 4,
    {
        let ghost sol = solution@;
        let mut i: usize = 0;
        while i < 4
            invariant
                i <= 4,
                sol == solution@,
                first_pc_from(self, sol, 0) == first_pc_from(self, sol, i as int),
                soln_defined_from(self, sol, i as int),
            decreases 4 - i,
        {
            let mut board = self.add_lines(i);
            let ghost start = board;
            if !board.is_pcable() {
                i = i + 1;
                continue;
            }
            let mut flag = true;
            let mut stopped = false;
            let mut k: usize = 0;
            proof {
                assert(sol.subrange(0, sol.len() as int) =~= sol);
            }
            while k < solution.len() && !stopped
                invariant
                    k <= solution.len(),
                    sol == solution@,
                    i < 4,
                    start.0 == raised(self.0, i as int),
                    spec_is_pcable(start.0),
                    first_pc_from(self, sol, 0) == first_pc_from(self, sol, i as int),
                    soln_defined_from(self, sol, i as int),
                    stopped ==> play(start, sol, true) == (board, false),
                    stopped ==> !flag,
                    !stopped ==> play(start, sol, true) == play(board, sol.subrange(k as int, sol.len() as int), flag),
                    !stopped ==> play_defined(board, sol.subrange(k as int, sol.len() as int)),
                decreases solution.len() - k, if stopped { 0int } else { 1int },
            {
                let piece = solution[k];
                let ghost sub = sol.subrange(k as int, sol.len() as int);
                proof {
                    assert(sub[0] == piece);
                    assert(sub.drop_first() =~= sol.subrange(k + 1, sol.len() as int));
                }
                if piece.can_place(board) && piece.as_bits() & board.0 == 0 {
                    board = piece.place(board);
                    if !board.is_pcable() {
                        flag = false;
                    }
                    k = k + 1;
                } else {
                    flag = false;
                    stopped = true;
                }
            }
            proof {
                if !stopped {
                    assert(sol.subrange(k as int, sol.len() as int) =~= Seq::<Piece>::empty());
                }
            }
            if flag && board.is_pc() {
                return Some(i);
            }
            i = i + 1;
        }
        None
    }
}

} // verus!
