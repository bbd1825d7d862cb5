//! Enumerating every distinct way a piece can lock into a board.
//!
//! A breadth-style walk over the piece's states (moves and turns from the
//! spawn position) records visited states in a bit vector and returns each
//! lockable placement once.

use vstd::prelude::*;
use std::collections::BTreeSet;
use bitvec::vec::BitVec;
use crate::board::{Board, BOARD_MASK};
use crate::shape::{Shape, Rotation};
use crate::piece::{
    Piece, pattern, sound_on, lemma_moves_stay_sound, lemma_moves_in_bounds, lemma_in_bounds_defined,
    lemma_pack_injective,
};

verus! {

/// A table of bits, one per packed piece state, held in a bitvec `BitVec`;
/// what it holds is read through `bits_held`.
#[verifier::external_body]
pub struct BitTable {
    bits: BitVec,
}

/// The bits the table's `BitVec` holds, in order.
pub uninterp spec fn bits_held(v: BitTable) -> Seq<bool>;

/// `BitVec::repeat` of bitvec: a vector of `len` copies of `bit`. It
/// panics when `len` exceeds `usize::MAX >> 3` (`usize::MAX / 8`), the most bits a vector can
/// encode.
#[verifier::external_body]
fn bitvec_repeat(bit: bool, len: usize) -> (v: BitTable)
    requires
        len <= usize::MAX / 8,
    ensures
        bits_held(v) == Seq::new(len as nat, |i: int| bit),
{
    BitTable { bits: BitVec::repeat(bit, len) }
}

/// Indexing a `BitVec` (bitvec's `Index<usize>` on the bit slice it
/// dereferences to): the bit at `i`; it panics when `i` is out of bounds.
#[verifier::external_body]
fn bitvec_get(v: &BitTable, i: usize) -> (b: bool)
    requires
        i < bits_held(*v).len(),
    ensures
        b == bits_held(*v)[i as int],
{
    v.bits[i]
}

/// `BitSlice::set` of bitvec through a `BitVec`: writes `value` at `i` and
/// leaves every other bit; it panics when `i` is out of bounds.
#[verifier::external_body]
fn bitvec_set(v: &mut BitTable, i: usize, value: bool)
    requires
        i < bits_held(*old(v)).len(),
    ensures
        bits_held(*final(v)) == bits_held(*old(v)).update(i as int, value),
{
    v.bits.set(i, value)
}

/// How many entries of `s` are `false`.
pub open spec fn count_false(s: Seq<bool>) -> nat
    decreases s.len(),
{
    if s.len() == 0 {
        0
    } else {
        (if s.last() { 0nat } else { 1nat }) + count_false(s.drop_last())
    }
}

/// Setting a `false` entry to `true` leaves one `false` fewer.
proof fn lemma_count_false_set(s: Seq<bool>, i: int)
    requires
        0 <= i < s.len(),
        !s[i],
    ensures
        count_false(s.update(i, true)) + 1 == count_false(s),
    decreases s.len(),
{
    let t = s.update(i, true);
    if i == s.len() - 1 {
        assert(t.drop_last() =~= s.drop_last());
    } else {
        assert(t.drop_last() =~= s.drop_last().update(i, true));
        lemma_count_false_set(s.drop_last(), i);
    }
}

/// `p` is one move (left, right, down, or a turn either way) away from `q` on `b`.
pub open spec fn is_move(b: Board, q: Piece, p: Piece) -> bool {
    ||| p == q.spec_left(b)
    ||| p == q.spec_right(b)
    ||| p == q.spec_down(b)
    ||| p == q.spec_cw(b)
    ||| p == q.spec_ccw(b)
}

/// Pieces from the spawn position of `shape`, each one move after the one
/// before it on `b`.
pub open spec fn is_walk(b: Board, shape: Shape, w: Seq<Piece>) -> bool {
    &&& w.len() > 0
    &&& w[0] == Piece::new_spec(shape)
    &&& forall|i: int| #![trigger w[i]] 0 <= i < w.len() - 1 ==> is_move(b, w[i], w[i + 1])
}

/// Some walk on `b` from the spawn position of `shape` ends at `p`.
#[verifier::opaque]
pub open spec fn walk_reaches(b: Board, shape: Shape, p: Piece) -> bool {
    exists|w: Seq<Piece>| is_walk(b, shape, w) && w.last() == p
}

/// One more move at the end of a walk gives a walk.
pub proof fn lemma_walk_push(b: Board, shape: Shape, w: Seq<Piece>, m: Piece)
    requires
        is_walk(b, shape, w),
        is_move(b, w.last(), m),
    ensures
        is_walk(b, shape, w.push(m)),
        w.push(m).last() == m,
{
    let v = w.push(m);
    assert forall|i: int| #![trigger v[i]] 0 <= i < v.len() - 1 implies is_move(b, v[i], v[i + 1]) by {
        if i < w.len() - 1 {
            assert(v[i] == w[i] && v[i + 1] == w[i + 1]);
        } else {
            assert(v[i] == w.last());
        }
    }
}

/// Every move from a piece that a walk reaches is reached by a walk.
proof fn lemma_moves_reachable(b: Board, shape: Shape, p: Piece)
    requires
        walk_reaches(b, shape, p),
    ensures
        walk_reaches(b, shape, p.spec_left(b)),
        walk_reaches(b, shape, p.spec_right(b)),
        walk_reaches(b, shape, p.spec_down(b)),
        walk_reaches(b, shape, p.spec_cw(b)),
        walk_reaches(b, shape, p.spec_ccw(b)),
{
    reveal(walk_reaches);
    let w = choose|w: Seq<Piece>| is_walk(b, shape, w) && w.last() == p;
    lemma_walk_push(b, shape, w, p.spec_left(b));
    lemma_walk_push(b, shape, w, p.spec_right(b));
    lemma_walk_push(b, shape, w, p.spec_down(b));
    lemma_walk_push(b, shape, w, p.spec_cw(b));
    lemma_walk_push(b, shape, w, p.spec_ccw(b));
}

/// Every piece of a walk is in bounds and, where it could lock, covers no
/// filled cell.
pub proof fn lemma_walk_sound(b: Board, shape: Shape, w: Seq<Piece>, k: int)
    requires
        is_walk(b, shape, w),
        0 <= k < w.len(),
    ensures
        sound_on(w[k], b),
    decreases k,
{
    if k == 0 {
        lemma_spawn_not_placeable(shape, b);
        assert(Piece::new_spec(shape).spec_in_bounds());
    } else {
        lemma_walk_sound(b, shape, w, k - 1);
        assert(is_move(b, w[k - 1], w[k]));
        lemma_moves_stay_sound(w[k - 1], b);
    }
}

/// The walk over the placements of one piece on one board.
pub struct PiecePlacer {
    board: Board,
    shape: Ghost<Shape>,
    queue: Vec<Piece>,
    visited: BitTable,
    returned: BTreeSet<u64>,
}

/// A piece in spawn position cannot lock: part of it lies above the four rows.
proof fn lemma_spawn_not_placeable(shape: Shape, b: Board)
    ensures
        !Piece::new_spec(shape).spec_can_place(b),
{
    let p = pattern(shape, Rotation::Zero);
    assert(p != 0 && p < 0x100_0000);
    assert(p != 0 && p < 0x100_0000 ==> (p << 40u64) & !BOARD_MASK != 0) by (bit_vector);
}

impl PiecePlacer {
    /// The board the placements are for.
    pub closed spec fn spec_board(&self) -> Board {
        self.board
    }

    /// The shape of the piece being placed.
    pub closed spec fn spec_shape(&self) -> Shape {
        self.shape@
    }

    /// No state waits to be expanded: `next` only answers `None` from now on.
    pub closed spec fn spec_exhausted(&self) -> bool {
        self.queue@.len() == 0
    }

    /// The cells of the placements returned so far.
    pub closed spec fn spec_returned(&self) -> Set<u64> {
        self.returned@
    }

    /// A measure that every call of `next` lowers: twice the states not yet
    /// visited plus the states waiting to be expanded.
    pub closed spec fn remaining(&self) -> nat {
        2 * count_false(bits_held(self.visited)) + self.queue@.len()
    }

    /// The state of `q` is marked visited.
    spec fn seen(&self, q: Piece) -> bool {
        bits_held(self.visited)[q.spec_pack() as int]
    }

    /// Every move from `q` is marked visited, and `q`'s cells were returned
    /// if it can lock.
    spec fn expanded(&self, q: Piece) -> bool {
        &&& self.seen(q.spec_left(self.board))
        &&& self.seen(q.spec_right(self.board))
        &&& self.seen(q.spec_down(self.board))
        &&& self.seen(q.spec_cw(self.board))
        &&& self.seen(q.spec_ccw(self.board))
        &&& q.spec_can_place(self.board) ==> self.returned@.contains(q.cells())
    }

    /// A visited state in bounds waits in the queue or has been expanded.
    spec fn covered(&self, q: Piece) -> bool {
        q.spec_in_bounds() && self.seen(q) ==> self.queue@.contains(q) || self.expanded(q)
    }

    /// The parts of the invariant that hold at every step: the visited table
    /// covers every packed state, the spawn state is visited, and every
    /// waiting state has the walk's shape, is in bounds and covers no filled
    /// cell where it could lock.
    spec fn steady(&self) -> bool {
        &&& bits_held(self.visited).len() == 0x4000
        &&& self.seen(Piece::new_spec(self.shape@))
        &&& forall|i: int| 0 <= i < self.queue@.len() ==> sound_on(#[trigger] self.queue@[i], self.board)
        &&& forall|i: int| 0 <= i < self.queue@.len() ==> (#[trigger] self.queue@[i]).shape == self.shape@
        &&& forall|i: int| 0 <= i < self.queue@.len() ==> walk_reaches(self.board, self.shape@, #[trigger] self.queue@[i])
    }

    /// The walk's invariant: `steady`, and every visited state in bounds is
    /// waiting or expanded.
    pub closed spec fn wf(&self) -> bool {
        &&& self.steady()
        &&& forall|q: Piece| #[trigger] self.covered(q)
    }

    /// `other` is `self` with more states visited and more cells returned.
    spec fn grows_to(&self, other: &PiecePlacer) -> bool {
        &&& other.board == self.board
        &&& other.shape == self.shape
        &&& bits_held(other.visited).len() == bits_held(self.visited).len()
        &&& forall|i: int| 0 <= i < bits_held(self.visited).len() && bits_held(self.visited)[i] ==> #[trigger] bits_held(other.visited)[i]
        &&& self.returned@.subset_of(other.returned@)
    }

    proof fn lemma_grows_expanded(&self, other: &PiecePlacer, q: Piece)
        requires
            self.steady(),
            self.grows_to(other),
            q.spec_in_bounds(),
            self.expanded(q),
        ensures
            other.expanded(q),
    {
        lemma_moves_in_bounds(q, self.board);
        lemma_in_bounds_defined(q.spec_left(self.board));
        lemma_in_bounds_defined(q.spec_right(self.board));
        lemma_in_bounds_defined(q.spec_down(self.board));
        lemma_in_bounds_defined(q.spec_cw(self.board));
        lemma_in_bounds_defined(q.spec_ccw(self.board));
    }

    /// Starts the walk for a piece of `shape` in spawn position on `board`.
    pub fn new(board: Board, shape: Shape) -> (r: PiecePlacer)
        ensures
            r.wf(),
            r.spec_board() == board,
            r.spec_shape() == shape,
            r.spec_returned() == Set::<u64>::empty(),
            !r.spec_exhausted(),
    {
        let piece = Piece::new(shape);
        let mut queue = Vec::new();
        queue.push(piece);
        let mut visited = bitvec_repeat(false, 0x4000);
        let returened = BTreeSet::new();
        proof {
            lemma_in_bounds_defined(piece);
            lemma_spawn_not_placeable(shape, board);
            assert(queue@ =~= seq![piece]);
            let w = seq![piece];
            assert(is_walk(board, shape, w) && w.last() == piece);
            reveal(walk_reaches);
        }
        bitvec_set(&mut visited, piece.pack() as usize, true);
        let r = PiecePlacer { board, shape: Ghost(shape), queue, visited, returned: returened };
        proof {
            assert forall|q: Piece| #[trigger] r.covered(q) by {
                if q.spec_in_bounds() && r.seen(q) {
                    lemma_in_bounds_defined(q);
                    lemma_pack_injective(q, piece);
                    assert(r.queue@[0] == q);
                }
            }
        }
        r
    }

    /// Marks `p` visited and queues it, unless it was visited before.
    fn visit(&mut self, p: Piece)
        requires
            old(self).steady(),
            sound_on(p, old(self).board),
            p.shape == old(self).shape@,
            walk_reaches(old(self).board, old(self).shape@, p),
        ensures
            final(self).steady(),
            old(self).grows_to(&*final(self)),
            final(self).returned@ == old(self).returned@,
            final(self).seen(p),
            final(self).queue@ == old(self).queue@ || final(self).queue@ == old(self).queue@.push(p),
            forall|q: Piece| old(self).covered(q) ==> #[trigger] final(self).covered(q),
            final(self).remaining() <= old(self).remaining(),
    {
        broadcast use vstd::seq_lib::lemma_seq_contains_after_push;

        proof {
            lemma_in_bounds_defined(p);
            lemma_in_bounds_defined(Piece::new_spec(self.shape@));
        }
        let ghost before = *self;
        let i = p.pack() as usize;
        if !bitvec_get(&self.visited, i) {
            proof {
                lemma_count_false_set(bits_held(self.visited), i as int);
            }
            bitvec_set(&mut self.visited, i, true);
            self.queue.push(p);
        }
        proof {
            assert forall|q: Piece| before.covered(q) implies #[trigger] self.covered(q) by {
                if q.spec_in_bounds() && self.seen(q) {
                    lemma_in_bounds_defined(q);
                    if q.spec_pack() == p.spec_pack() {
                        lemma_pack_injective(q, p);
                    } else {
                        assert(before.seen(q));
                        if !before.queue@.contains(q) {
                            before.lemma_grows_expanded(&*self, q);
                        }
                    }
                }
            }
        }
    }

    /// The next placement not returned before: a piece that can lock into
    /// the board, with the board after it locks. `None` once every reachable
    /// state has been expanded: by then the cells of every piece that a walk
    /// of moves from the spawn position reaches, and that can lock, have been
    /// returned.
    pub fn next(&mut self) -> (r: Option<(Piece, Board)>)
        requires
            old(self).wf(),
        ensures
            final(self).wf(),
            final(self).spec_board() == old(self).spec_board(),
            final(self).spec_shape() == old(self).spec_shape(),
            final(self).remaining() <= old(self).remaining(),
            match r {
                Some((p, b)) => {
                    &&& !old(self).spec_exhausted()
                    &&& walk_reaches(old(self).spec_board(), old(self).spec_shape(), p)
                    &&& p.shape == old(self).spec_shape()
                    &&& p.spec_in_bounds()
                    &&& p.place_ok(old(self).spec_board())
                    &&& b == p.spec_place(old(self).spec_board())
                    &&& !old(self).spec_returned().contains(p.cells())
                    &&& final(self).spec_returned() == old(self).spec_returned().insert(p.cells())
                    &&& final(self).remaining() < old(self).remaining()
                },
                None => {
                    &&& final(self).spec_exhausted()
                    &&& final(self).spec_returned() == old(self).spec_returned()
                    &&& forall|w: Seq<Piece>|
                        is_walk(old(self).spec_board(), old(self).spec_shape(), w)
                            && #[trigger] w.last().spec_can_place(old(self).spec_board())
                            ==> final(self).spec_returned().contains(w.last().cells())
                },
            },
    {
        broadcast use vstd::laws_cmp::group_laws_cmp, vstd::std_specs::btree::group_btree_axioms;
        broadcast use vstd::seq_lib::lemma_seq_contains_after_push;

        loop
            invariant
                self.wf(),
                self.board == old(self).board,
                self.shape == old(self).shape,
                self.returned@ == old(self).returned@,
                self.remaining() <= old(self).remaining(),
                old(self).queue@.len() == 0 ==> self.queue@.len() == 0,
            decreases self.remaining(),
        {
            let ghost start = *self;
            let piece = match self.queue.pop() {
                Some(p) => p,
                None => {
                    proof {
                        assert(self.queue@ == start.queue@);
                        assert forall|q: Piece| #[trigger] self.covered(q) by {
                            assert(start.covered(q));
                        }
                        self.lemma_done();
                    }
                    return None;
                },
            };
            let ghost popped = *self;
            let board = self.board;
            proof {
                assert(sound_on(piece, board));
                assert(piece.shape == self.shape@);
                lemma_in_bounds_defined(piece);
                lemma_moves_stay_sound(piece, board);
                assert(start.queue@ == popped.queue@.push(piece));
                assert(start.queue@[start.queue@.len() - 1] == piece);
                assert(walk_reaches(board, self.shape@, piece));
                lemma_moves_reachable(board, self.shape@, piece);
                assert forall|q: Piece| q != piece implies #[trigger] popped.covered(q) by {
                    assert(start.covered(q));
                }
            }
            self.visit(piece.left(board));
            let ghost s1 = *self;
            self.visit(piece.right(board));
            let ghost s2 = *self;
            self.visit(piece.down(board));
            let ghost s3 = *self;
            self.visit(piece.cw(board));
            let ghost s4 = *self;
            self.visit(piece.ccw(board));
            proof {
                assert(self.seen(piece.spec_left(board))) by {
                    lemma_in_bounds_defined(piece.spec_left(board));
                }
                assert(self.seen(piece.spec_right(board))) by {
                    lemma_in_bounds_defined(piece.spec_right(board));
                }
                assert(self.seen(piece.spec_down(board))) by {
                    lemma_in_bounds_defined(piece.spec_down(board));
                }
                assert(self.seen(piece.spec_cw(board))) by {
                    lemma_in_bounds_defined(piece.spec_cw(board));
                }
                assert forall|q: Piece| q != piece implies #[trigger] self.covered(q) by {
                    assert(popped.covered(q));
                    assert(s1.covered(q));
                    assert(s2.covered(q));
                    assert(s3.covered(q));
                    assert(s4.covered(q));
                }
            }
            let ghost visited_all = *self;
            let bits = piece.as_bits();
            if piece.can_place(board) && !self.returned.contains(&bits) {
                self.returned.insert(bits);
                proof {
                    assert(visited_all.grows_to(&*self));
                    assert(self.expanded(piece));
                    assert forall|q: Piece| #[trigger] self.covered(q) by {
                        if q != piece && q.spec_in_bounds() && self.seen(q) {
                            lemma_in_bounds_defined(q);
                            assert(visited_all.covered(q));
                            if !self.queue@.contains(q) {
                                visited_all.lemma_grows_expanded(&*self, q);
                            }
                        }
                    }
                }
                return Some((piece, piece.place(board)));
            }
            proof {
                assert(self.expanded(piece));
                assert forall|q: Piece| #[trigger] self.covered(q) by {
                    if q != piece {
                        assert(self.covered(q));
                    }
                }
            }
        }
    }

    /// Once nothing waits, every piece a walk reaches is visited and expanded.
    proof fn lemma_done(&self)
        requires
            self.wf(),
            self.queue@.len() == 0,
        ensures
            forall|w: Seq<Piece>|
                is_walk(self.board, self.shape@, w) && #[trigger] w.last().spec_can_place(self.board)
                    ==> self.returned@.contains(w.last().cells()),
    {
        assert forall|w: Seq<Piece>|
            is_walk(self.board, self.shape@, w) && #[trigger] w.last().spec_can_place(self.board)
                implies self.returned@.contains(w.last().cells()) by {
            self.lemma_walk_expanded(w, w.len() - 1);
        }
    }

    /// The pieces of a walk are in bounds, visited and expanded, once nothing waits.
    proof fn lemma_walk_expanded(&self, w: Seq<Piece>, k: int)
        requires
            self.wf(),
            self.queue@.len() == 0,
            is_walk(self.board, self.shape@, w),
            0 <= k < w.len(),
        ensures
            w[k].spec_in_bounds(),
            self.expanded(w[k]),
        decreases k,
    {
        if k == 0 {
            assert(Piece::new_spec(self.shape@).spec_in_bounds());
            assert(self.covered(w[0]));
        } else {
            self.lemma_walk_expanded(w, k - 1);
            let q = w[k - 1];
            assert(is_move(self.board, w[k - 1], w[k]));
            lemma_moves_in_bounds(q, self.board);
            assert(self.seen(w[k]));
            assert(self.covered(w[k]));
        }
    }
}

impl Piece {
    /// A piece of `shape` in spawn position.
    pub open spec fn new_spec(shape: Shape) -> Piece {
        Piece { shape, col: 0, row: 4, rotation: Rotation::Zero }
    }
}

} // verus!
