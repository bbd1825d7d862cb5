//! Search states and the order the best-first search expands them in.

use vstd::prelude::*;
use crate::board::Board;
use crate::shape::{Shape, shape_index, rotation_index, lemma_shape_index_bijective};
use crate::piece::Piece;
use crate::queue::PieceQueue;

verus! {

/// A state of the search: the board after the pieces placed so far, the
/// piece in hand, the rest of the queue and the held piece; `evaluation` is
/// the board's score.
pub struct Stage {
    pub evaluation: i16,
    pub bit_board: Board,
    pub piece: Shape,
    pub placed: Vec<Piece>,
    pub left: PieceQueue,
    pub hold: Option<Shape>,
}

/// What a stage is, as values: score, board, piece in hand, pieces placed,
/// queue, held piece.
pub type StageKey = (i16, Board, Shape, Seq<Piece>, PieceQueue, Option<Shape>);

impl Stage {
    /// The stage as values.
    pub open spec fn key(&self) -> StageKey {
        (self.evaluation, self.bit_board, self.piece, self.placed@, self.left, self.hold)
    }
}

/// The order of pieces: by shape, then column, row and rotation.
pub open spec fn piece_lt(p: Piece, q: Piece) -> bool {
    if shape_index(p.shape) != shape_index(q.shape) {
        shape_index(p.shape) < shape_index(q.shape)
    } else if p.col != q.col {
        p.col < q.col
    } else if p.row != q.row {
        p.row < q.row
    } else {
        rotation_index(p.rotation) < rotation_index(q.rotation)
    }
}

/// The lexicographic order of piece sequences (a proper prefix comes first).
pub open spec fn seq_lt(a: Seq<Piece>, b: Seq<Piece>) -> bool
    decreases a.len(),
{
    if a.len() == 0 {
        b.len() > 0
    } else if b.len() == 0 {
        false
    } else if a[0] != b[0] {
        piece_lt(a[0], b[0])
    } else {
        seq_lt(a.drop_first(), b.drop_first())
    }
}

/// The order of held pieces: nothing held comes first, then by shape.
pub open spec fn hold_lt(a: Option<Shape>, b: Option<Shape>) -> bool {
    match (a, b) {
        (None, Some(_)) => true,
        (Some(x), Some(y)) => shape_index(x) < shape_index(y),
        _ => false,
    }
}

/// The order of stages: by score, board, piece in hand, pieces placed,
/// queue and held piece, each in its own order.
pub open spec fn stage_lt(a: StageKey, b: StageKey) -> bool {
    if a.0 != b.0 {
        a.0 < b.0
    } else if a.1 != b.1 {
        a.1.0 < b.1.0
    } else if a.2 != b.2 {
        shape_index(a.2) < shape_index(b.2)
    } else if a.3 != b.3 {
        seq_lt(a.3, b.3)
    } else if a.4 != b.4 {
        a.4.0 < b.4.0
    } else {
        hold_lt(a.5, b.5)
    }
}

proof fn lemma_piece_order(p: Piece, q: Piece, r: Piece)
    ensures
        !piece_lt(p, p),
        p != q ==> piece_lt(p, q) || piece_lt(q, p),
        piece_lt(p, q) ==> !piece_lt(q, p),
        piece_lt(p, q) && piece_lt(q, r) ==> piece_lt(p, r),
{
    lemma_shape_index_bijective(p.shape);
    lemma_shape_index_bijective(q.shape);
    if p != q && shape_index(p.shape) == shape_index(q.shape) && p.col == q.col && p.row == q.row {
        assert(p.rotation != q.rotation);
        assert(rotation_index(p.rotation) != rotation_index(q.rotation));
    }
}

/// The sequence order is a strict total order.
proof fn lemma_seq_order(a: Seq<Piece>, b: Seq<Piece>, c: Seq<Piece>)
    ensures
        !seq_lt(a, a),
        a != b ==> seq_lt(a, b) || seq_lt(b, a),
        seq_lt(a, b) ==> !seq_lt(b, a),
        seq_lt(a, b) && seq_lt(b, c) ==> seq_lt(a, c),
    decreases a.len(),
{
    if a.len() > 0 {
        lemma_seq_order(a.drop_first(), a.drop_first(), a.drop_first());
        if b.len() > 0 {
            lemma_piece_order(a[0], b[0], a[0]);
            lemma_seq_order(a.drop_first(), b.drop_first(), b.drop_first());
            if c.len() > 0 {
                lemma_piece_order(a[0], b[0], c[0]);
                lemma_seq_order(a.drop_first(), b.drop_first(), c.drop_first());
            }
            if a != b && a[0] == b[0] {
                if a.drop_first() == b.drop_first() {
                    assert(a =~= seq![a[0]] + a.drop_first());
                    assert(b =~= seq![b[0]] + b.drop_first());
                }
            }
        }
    } else {
        if b.len() == 0 {
            assert(a =~= b);
        }
    }
}

/// The stage order is a strict total order on stages as values.
pub proof fn lemma_stage_order(a: StageKey, b: StageKey, c: StageKey)
    ensures
        !stage_lt(a, a),
        a != b ==> stage_lt(a, b) || stage_lt(b, a),
        stage_lt(a, b) ==> !stage_lt(b, a),
        stage_lt(a, b) && stage_lt(b, c) ==> stage_lt(a, c),
{
    lemma_seq_order(a.3, b.3, c.3);
    lemma_seq_order(a.3, a.3, a.3);
    lemma_shape_index_bijective(a.2);
    lemma_shape_index_bijective(b.2);
    match (a.5, b.5) {
        (Some(x), Some(y)) => {
            lemma_shape_index_bijective(x);
            lemma_shape_index_bijective(y);
        },
        _ => {},
    }
}

/// Whether `p` comes before `q` in the piece order.
fn piece_less(p: Piece, q: Piece) -> (r: bool)
    ensures
        r == piece_lt(p, q),
{
    let ps = p.shape.index();
    let qs = q.shape.index();
    if ps != qs {
        ps < qs
    } else if p.col != q.col {
        p.col < q.col
    } else if p.row != q.row {
        p.row < q.row
    } else {
        p.rotation.index() < q.rotation.index()
    }
}

/// Whether `a` comes before `b` in the sequence order.
fn seq_less(a: &Vec<Piece>, b: &Vec<Piece>) -> (r: bool)
    ensures
        r == seq_lt(a@, b@),
{
    let mut i: usize = 0;
    assert(a@.skip(0) =~= a@ && b@.skip(0) =~= b@);
    while i < a.len() && i < b.len()
        invariant
            i <= a.len(),
            i <= b.len(),
            seq_lt(a@, b@) == seq_lt(a@.skip(i as int), b@.skip(i as int)),
        decreases a.len() - i,
    {
        let ghost sa = a@.skip(i as int);
        let ghost sb = b@.skip(i as int);
        assert(sa[0] == a[i as int] && sb[0] == b[i as int]);
        if a[i] != b[i] {
            return piece_less(a[i], b[i]);
        }
        assert(sa.drop_first() =~= a@.skip(i + 1));
        assert(sb.drop_first() =~= b@.skip(i + 1));
        i = i + 1;
    }
    a.len() < b.len()
}

/// Whether `a` comes before `b` in the order of held pieces.
fn hold_less(a: Option<Shape>, b: Option<Shape>) -> (r: bool)
    ensures
        r == hold_lt(a, b),
{
    match (a, b) {
        (None, Some(_)) => true,
        (Some(x), Some(y)) => x.index() < y.index(),
        _ => false,
    }
}

/// The same pieces in the same order.
fn seq_same(a: &Vec<Piece>, b: &Vec<Piece>) -> (r: bool)
    ensures
        r == (a@ == b@),
{
    if a.len() != b.len() {
        return false;
    }
    let mut i: usize = 0;
    while i < a.len()
        invariant
            i <= a.len(),
            a.len() == b.len(),
            forall|j: int| 0 <= j < i ==> a@[j] == b@[j],
        decreases a.len() - i,
    {
        if a[i] != b[i] {
            return false;
        }
        i = i + 1;
    }
    assert(a@ =~= b@);
    true
}

fn shape_same(a: Shape, b: Shape) -> (r: bool)
    ensures
        r == (a == b),
{
    proof {
        lemma_shape_index_bijective(a);
        lemma_shape_index_bijective(b);
    }
    a.index() == b.index()
}

fn hold_same(a: Option<Shape>, b: Option<Shape>) -> (r: bool)
    ensures
        r == (a == b),
{
    match (a, b) {
        (None, None) => true,
        (Some(x), Some(y)) => shape_same(x, y),
        _ => false,
    }
}

impl Stage {
    /// Whether the two stages are the same as values.
    pub fn same(&self, other: &Stage) -> (r: bool)
        ensures
            r == (self.key() == other.key()),
    {
        self.evaluation == other.evaluation && self.bit_board.0 == other.bit_board.0 && shape_same(
            self.piece,
            other.piece,
        ) && seq_same(&self.placed, &other.placed) && self.left.0 == other.left.0 && hold_same(
            self.hold,
            other.hold,
        )
    }

    /// Whether `self` comes before `other` in the stage order.
    pub fn less(&self, other: &Stage) -> (r: bool)
        ensures
            r == stage_lt(self.key(), other.key()),
    {
        if self.evaluation != other.evaluation {
            self.evaluation < other.evaluation
        } else if self.bit_board.0 != other.bit_board.0 {
            self.bit_board.0 < other.bit_board.0
        } else if !shape_same(self.piece, other.piece) {
            self.piece.index() < other.piece.index()
        } else if !seq_same(&self.placed, &other.placed) {
            seq_less(&self.placed, &other.placed)
        } else if self.left.0 != other.left.0 {
            self.left.0 < other.left.0
        } else {
            hold_less(self.hold, other.hold)
        }
    }

    /// A copy of the stage.
    pub fn copy(&self) -> (r: Stage)
        ensures
            r.key() == self.key(),
    {
        Stage {
            evaluation: self.evaluation,
            bit_board: self.bit_board,
            piece: self.piece,
            placed: copy_pieces(&self.placed),
            left: self.left,
            hold: self.hold,
        }
    }
}

/// A copy of a list of pieces.
pub fn copy_pieces(v: &Vec<Piece>) -> (r: Vec<Piece>)
    ensures
        r@ == v@,
{
    let mut r: Vec<Piece> = Vec::new();
    let mut i: usize = 0;
    while i < v.len()
        invariant
            i <= v.len(),
            r@ == v@.subrange(0, i as int),
        decreases v.len() - i,
    {
        r.push(v[i]);
        i = i + 1;
        assert(r@ =~= v@.subrange(0, i as int));
    }
    assert(r@ =~= v@);
    r
}

} // verus!
