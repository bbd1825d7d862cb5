//! The queue of upcoming pieces, packed three bits per piece into a word.

use vstd::prelude::*;
use vstd::arithmetic::power2::{pow2, lemma_pow2_unfold, lemma2_to64, lemma2_to64_rest, lemma_pow2_strictly_increases};
use vstd::bits::lemma_u64_shl_is_mul;
use crate::shape::{Shape, shape_index, shape_at};
use crate::bits::lemma_word_basics;

verus! {

/// A queue of upcoming pieces: the lowest three bits hold the first piece
/// (by its index in `I J L O S T Z`), the next three bits the second, and so on.
#[derive(Clone, Copy, Debug, PartialEq, Eq, Structural, Hash, PartialOrd, Ord)]
pub struct PieceQueue(pub u64);

/// The word a sequence of shapes packs into (shapes past the 21st push the
/// first ones' bits out of the word).
pub open spec fn encode(q: Seq<Shape>) -> u64
    decreases q.len(),
{
    if q.len() == 0 {
        0
    } else {
        (encode(q.drop_first()) << 3u64) | (shape_index(q[0]) as u64)
    }
}

impl PieceQueue {
    /// Packs `queue`, first piece in the lowest three bits.
    pub fn new(queue: Vec<Shape>) -> (r: PieceQueue)
        ensures
            r.0 == encode(queue@),
    {
        let mut res: u64 = 0;
        let mut i = queue.len();
        proof {
            assert(queue@.subrange(i as int, queue@.len() as int) =~= Seq::<Shape>::empty());
        }
        while i > 0
            invariant
                i <= queue.len(),
                res == encode(queue@.subrange(i as int, queue@.len() as int)),
            decreases i,
        {
            i = i - 1;
            let ch = queue[i];
            proof {
                let s = queue@.subrange(i as int, queue@.len() as int);
                assert(s.drop_first() =~= queue@.subrange(i + 1, queue@.len() as int));
                assert(s[0] == ch);
            }
            res = res << 3;
            res = res | match ch {
                Shape::I => 0,
                Shape::J => 1,
                Shape::L => 2,
                Shape::O => 3,
                Shape::S => 4,
                Shape::T => 5,
                Shape::Z => 6,
            };
        }
        proof {
            assert(queue@.subrange(0, queue@.len() as int) =~= queue@);
        }
        PieceQueue(res)
    }

    /// The first piece of the queue.
    pub fn now(&self) -> (s: Shape)
        requires
            self.0 & 0b111 != 7,
        ensures
            s == shape_at((self.0 & 0b111) as nat),
            shape_index(s) == self.0 & 0b111,
    {
        match self.0 & 0b_111 {
            0 => Shape::I,
            1 => Shape::J,
            2 => Shape::L,
            3 => Shape::O,
            4 => Shape::S,
            5 => Shape::T,
            _ => {
                proof {
                    lemma_word_basics(self.0, 0);
                }
                Shape::Z
            },
        }
    }

    /// The queue without its first piece.
    pub fn go(&self) -> (q: PieceQueue)
        ensures
            q.0 == self.0 >> 3,
    {
        PieceQueue(self.0 >> 3)
    }

    /// No bits are left (which includes a queue of nothing but `I` pieces,
    /// whose index is 0).
    pub fn is_empty(&self) -> (r: bool)
        ensures
            r == (self.0 == 0),
    {
        self.0 == 0
    }
}

/// Every three-bit group of the word names a shape (none is 7), so each
/// piece `now` reads from it, now or after any number of `go`, is defined.
pub open spec fn valid_queue(x: u64) -> bool {
    forall|k: u64| k < 21 ==> #[trigger] ((x >> (3 * k) as u64) & 7) != 7
}

/// The number of pieces a queue word still holds: its three-bit groups up
/// to the highest nonzero one.
pub open spec fn queue_groups(x: u64) -> nat
    decreases x,
{
    if x == 0 {
        0
    } else {
        proof {
            lemma_word_basics(x, 0);
        }
        1 + queue_groups(x >> 3)
    }
}

proof fn lemma_group_shift(x: u64, k: u64)
    by (bit_vector)
    requires
        k < 21,
    ensures
        ((x >> 3u64) >> (3 * k) as u64) & 7 == (x >> (3 * (k + 1)) as u64) & 7,
        k == 20 ==> (x >> 63u64) & 7 <= 1,
        x != 0 ==> x >> 3u64 < x,
{
}

/// Dropping the first piece of a valid queue leaves a valid queue, and the
/// first piece itself is defined.
pub proof fn lemma_valid_queue_go(x: u64)
    requires
        valid_queue(x),
    ensures
        valid_queue(x >> 3),
        x & 7 != 7,
        x != 0 ==> queue_groups(x >> 3) + 1 == queue_groups(x),
{
    assert(((x >> (3 * 0u64) as u64) & 7) != 7);
    lemma_word_basics(x, 0);
    assert forall|k: u64| k < 21 implies #[trigger] (((x >> 3) >> (3 * k) as u64) & 7) != 7 by {
        lemma_group_shift(x, k);
        if k < 20 {
            assert(((x >> (3 * (k + 1)) as u64) & 7) != 7);
        }
    }
}

proof fn lemma_group_push(e: u64, c: u64, k: u64)
    by (bit_vector)
    requires
        c < 7,
        k < 21,
    ensures
        k == 0 ==> (((e << 3u64) | c) >> (3 * k) as u64) & 7 == c,
        k >= 1 ==> (((e << 3u64) | c) >> (3 * k) as u64) & 7 == (e >> (3 * (k - 1)) as u64) & 7,
{
}

/// A packed sequence of shapes is a valid queue.
pub proof fn lemma_encode_valid(q: Seq<Shape>)
    ensures
        valid_queue(encode(q)),
    decreases q.len(),
{
    if q.len() == 0 {
        assert forall|k: u64| k < 21 implies #[trigger] ((0u64 >> (3 * k) as u64) & 7) != 7 by {
            lemma_word_basics(0, (3 * k) as u64);
        }
    } else {
        let e = encode(q.drop_first());
        let c = shape_index(q[0]) as u64;
        lemma_encode_valid(q.drop_first());
        assert forall|k: u64| k < 21 implies #[trigger] ((encode(q) >> (3 * k) as u64) & 7) != 7 by {
            lemma_group_push(e, c, k);
            if k >= 1 {
                assert(((e >> (3 * ((k - 1) as u64)) as u64) & 7) != 7);
            }
        }
    }
}

/// A word holds at most 22 three-bit groups.
pub proof fn lemma_queue_groups_bound(x: u64)
    ensures
        queue_groups(x) <= 22,
{
    lemma_groups_below(x, 22);
}

proof fn lemma_groups_below(x: u64, n: nat)
    requires
        n <= 22,
        n < 22 ==> x < pow2((3 * n) as nat),
    ensures
        queue_groups(x) <= n,
    decreases n,
{
    lemma2_to64();
    lemma2_to64_rest();
    if x != 0 {
        if n == 0 {
            assert(false);
        } else {
            let y = x >> 3;
            if n < 22 {
                lemma_pow2_unfold((3 * n) as nat);
                lemma_pow2_unfold((3 * n - 1) as nat);
                lemma_pow2_unfold((3 * n - 2) as nat);
                vstd::bits::lemma_u64_shr_is_div(x, 3);
                assert(y < pow2((3 * (n - 1)) as nat));
            } else {
                vstd::bits::lemma_u64_shr_is_div(x, 3);
                assert(y < pow2(61));
                lemma_pow2_strictly_increases(61, 63);
            }
            lemma_groups_below(y, (n - 1) as nat);
        }
    }
}

/// A packed queue of `n` shapes lies below `2^(3n)` (for up to 21 shapes).
pub proof fn lemma_encode_bound(q: Seq<Shape>)
    requires
        q.len() <= 21,
    ensures
        encode(q) < pow2((3 * q.len()) as nat),
    decreases q.len(),
{
    lemma2_to64();
    lemma2_to64_rest();
    if q.len() > 0 {
        let r = q.drop_first();
        lemma_encode_bound(r);
        let e = encode(r);
        let n = (3 * r.len()) as nat;
        if n < 60 {
            lemma_pow2_strictly_increases(n, 60);
        }
        lemma_pow2_unfold((n + 1) as nat);
        lemma_pow2_unfold((n + 2) as nat);
        lemma_pow2_unfold((n + 3) as nat);
        assert(3 * q.len() == n + 3);
        assert(e * pow2(3) <= u64::MAX);
        lemma_u64_shl_is_mul(e, 3);
        let c = shape_index(q[0]) as u64;
        lemma_shift_or_small(e, c);
    }
}

proof fn lemma_shift_or_small(e: u64, c: u64)
    by (bit_vector)
    requires
        c < 8,
    ensures
        (e << 3u64) | c == (e << 3u64) + c,
        ((e << 3u64) | c) & 7 == c,
        e < 0x2000_0000_0000_0000 ==> ((e << 3u64) | c) >> 3u64 == e,
{
}

/// Reading a packed queue gives back what was packed: the first piece is
/// in the lowest three bits, and dropping it leaves the rest packed (for
/// queues of up to 21 pieces, which fit the word).
pub proof fn lemma_queue_roundtrip(q: Seq<Shape>)
    requires
        1 <= q.len() <= 21,
    ensures
        encode(q) & 7 == shape_index(q[0]),
        shape_at((encode(q) & 7) as nat) == q[0],
        encode(q) >> 3 == encode(q.drop_first()),
{
    let r = q.drop_first();
    lemma_encode_bound(r);
    lemma2_to64();
    lemma2_to64_rest();
    if 3 * r.len() < 61 {
        lemma_pow2_strictly_increases((3 * r.len()) as nat, 61);
    }
    lemma_shift_or_small(encode(r), shape_index(q[0]) as u64);
}

} // verus!
