//! Best-first search for a perfect clear.

use vstd::prelude::*;
use crate::board::{Board, BOARD_MASK, stack, settled};
use crate::shape::{Shape, shape_at};
use crate::piece::{Piece, lemma_place_adds_four_cells, lemma_in_bounds_defined};
use crate::placer::{PiecePlacer, is_walk, lemma_walk_sound, walk_reaches};
use crate::queue::{PieceQueue, encode, valid_queue, queue_groups, lemma_valid_queue_go, lemma_encode_valid, lemma_queue_groups_bound};
use crate::prune::{spec_is_pcable, lemma_full_board_pcable, lemma_pruned_board_keeps_defect};
use crate::solution::{play, pc_with, raised, first_pc_from, lemma_play_push};
use crate::bits::count_ones;
use crate::stage::{Stage, StageKey, stage_lt, lemma_stage_order, copy_pieces};
use crate::bits::{popcount, lemma_word_basics, lemma_popcount_below};
use vstd::arithmetic::power2::{pow2, lemma_pow2_unfold, lemma2_to64, lemma2_to64_rest};

verus! {

/// The piece in hand, the queue word and the held piece.
pub type Hand = (Shape, u64, Option<Shape>);

/// The hand of a stage.
pub open spec fn hand_of(s: Stage) -> Hand {
    (s.piece, s.left.0, s.hold)
}

/// The shapes of a sequence of pieces.
pub open spec fn shapes_of(v: Seq<Piece>) -> Seq<Shape> {
    v.map_values(|p: Piece| p.shape)
}

/// The ways the search plays a piece from a hand. `Main` plays the piece in
/// hand; `FromQueue` plays the next queued piece and holds the one in hand
/// (nothing held yet); `FromHold` plays the held piece and holds the one in
/// hand, the queue going on; `FromHoldLast` does the same when the queue is
/// empty.
pub enum Source {
    Main,
    FromQueue,
    FromHold,
    FromHoldLast,
}

/// The search plays from `h` in the way `src`.
pub open spec fn source_ok(h: Hand, src: Source) -> bool {
    match src {
        Source::Main => true,
        Source::FromQueue => h.1 != 0 && h.2 is None,
        Source::FromHold => h.1 != 0 && h.2 is Some,
        Source::FromHoldLast => h.1 == 0 && h.2 is Some,
    }
}

/// The shape played from `h` in the way `src`.
pub open spec fn played(h: Hand, src: Source) -> Shape {
    match src {
        Source::Main => h.0,
        Source::FromQueue => shape_at((h.1 & 7) as nat),
        _ => h.2.unwrap(),
    }
}

/// The hand after playing from `h` in the way `src`; `None` when the search
/// does not go on from there (a main play with nothing queued and nothing held).
pub open spec fn next_hand(h: Hand, src: Source) -> Option<Hand> {
    match src {
        Source::Main => if h.1 != 0 {
            Some((shape_at((h.1 & 7) as nat), h.1 >> 3, h.2))
        } else if h.2 is Some {
            Some((h.2.unwrap(), 0u64, None))
        } else {
            None
        },
        Source::FromQueue => if h.1 >> 3 == 0 {
            Some((h.0, 0u64, None))
        } else {
            Some((shape_at(((h.1 >> 3) & 7) as nat), (h.1 >> 3) >> 3, Some(h.0)))
        },
        Source::FromHold => Some((shape_at((h.1 & 7) as nat), h.1 >> 3, Some(h.0))),
        Source::FromHoldLast => Some((h.0, 0u64, None)),
    }
}

/// Playing the shapes `s` one after the other, each in one of the ways the
/// search plays, takes hand `h` to hand `g`.
pub open spec fn leads_to(h: Hand, s: Seq<Shape>, g: Hand) -> bool
    decreases s.len(), 1int,
{
    if s.len() == 0 {
        h == g
    } else {
        ||| leads_via(h, s, g, Source::Main)
        ||| leads_via(h, s, g, Source::FromQueue)
        ||| leads_via(h, s, g, Source::FromHold)
        ||| leads_via(h, s, g, Source::FromHoldLast)
    }
}

/// `leads_to`, with the first shape played in the way `src`.
pub open spec fn leads_via(h: Hand, s: Seq<Shape>, g: Hand, src: Source) -> bool
    decreases s.len(), 0int,
{
    &&& s.len() > 0
    &&& source_ok(h, src)
    &&& played(h, src) == s[0]
    &&& next_hand(h, src) matches Some(n) && leads_to(n, s.drop_first(), g)
}

/// The shapes `s` can be played from hand `h`: all but the last lead to a
/// hand from which the last can be played.
pub open spec fn playable(h: Hand, s: Seq<Shape>) -> bool {
    s.len() > 0 && exists|g: Hand, src: Source|
        #![trigger leads_to(h, s.drop_last(), g), source_ok(g, src)]
        leads_to(h, s.drop_last(), g) && source_ok(g, src) && played(g, src) == s.last()
}

/// Playing one more shape from the hand a sequence leads to extends it.
proof fn lemma_leads_push(h: Hand, s: Seq<Shape>, g: Hand, src: Source, n: Hand)
    requires
        leads_to(h, s, g),
        source_ok(g, src),
        next_hand(g, src) == Some(n),
    ensures
        leads_to(h, s.push(played(g, src)), n),
    decreases s.len(),
{
    let x = played(g, src);
    if s.len() == 0 {
        assert(s.push(x) =~= seq![x]);
        assert(seq![x].drop_first() =~= Seq::<Shape>::empty());
        assert(leads_via(h, s.push(x), n, src));
    } else {
        assert(s.push(x).drop_first() =~= s.drop_first().push(x));
        assert(s.push(x)[0] == s[0]);
        if leads_via(h, s, g, Source::Main) {
            lemma_leads_push(next_hand(h, Source::Main).unwrap(), s.drop_first(), g, src, n);
            assert(leads_via(h, s.push(x), n, Source::Main));
        } else if leads_via(h, s, g, Source::FromQueue) {
            lemma_leads_push(next_hand(h, Source::FromQueue).unwrap(), s.drop_first(), g, src, n);
            assert(leads_via(h, s.push(x), n, Source::FromQueue));
        } else if leads_via(h, s, g, Source::FromHold) {
            lemma_leads_push(next_hand(h, Source::FromHold).unwrap(), s.drop_first(), g, src, n);
            assert(leads_via(h, s.push(x), n, Source::FromHold));
        } else {
            lemma_leads_push(next_hand(h, Source::FromHoldLast).unwrap(), s.drop_first(), g, src, n);
            assert(leads_via(h, s.push(x), n, Source::FromHoldLast));
        }
    }
}

/// The first shape of a sequence playable from a hand is the piece in hand,
/// the first queued piece or the held piece.
pub proof fn lemma_first_shape(h: Hand, s: Seq<Shape>)
    requires
        playable(h, s),
    ensures
        s[0] == h.0 || (h.1 != 0 && s[0] == shape_at((h.1 & 7) as nat)) || h.2 == Some(s[0]),
{
    let (g, src) = choose|g: Hand, src: Source|
        #![trigger leads_to(h, s.drop_last(), g), source_ok(g, src)]
        leads_to(h, s.drop_last(), g) && source_ok(g, src) && played(g, src) == s.last();
    let d = s.drop_last();
    if d.len() == 0 {
        assert(g == h);
        assert(s.last() == s[0]);
    } else {
        assert(d[0] == s[0]);
    }
}

/// A stage reached from `start` and hand `h0`, where the pieces `base` were
/// placed before: its pieces start with `base`, and the others lock one after
/// the other into its board, every board on the way keeping a perfect clear
/// possible; their shapes take `h0` to the stage's hand; its queue is valid.
pub open spec fn reached(start: Board, h0: Hand, base: Seq<Piece>, s: Stage) -> bool {
    &&& s.placed@.len() >= base.len()
    &&& s.placed@.subrange(0, base.len() as int) == base
    &&& play(start, s.placed@.skip(base.len() as int), true) == (s.bit_board, true)
    &&& leads_to(h0, shapes_of(s.placed@.skip(base.len() as int)), hand_of(s))
    &&& forall|i: int| base.len() <= i < s.placed@.len() ==> (#[trigger] s.placed@[i]).spec_in_bounds()
    &&& plan_reaches(start, h0, s.bit_board, hand_of(s))
    &&& valid_queue(s.left.0)
    &&& spec_is_pcable(s.bit_board.0)
    &&& popcount(s.bit_board.0) + 4 * pool(hand_of(s)) == popcount(start.0) + 4 * pool(h0)
}

/// The pieces a hand still has: the one in hand, the queued ones (up to the
/// last nonzero group of the queue word) and the held one.
pub open spec fn pool(h: Hand) -> nat {
    1 + queue_groups(h.1) + if h.2 is Some { 1nat } else { 0nat }
}

/// Every play uses up one piece of the hand.
pub proof fn lemma_pool_step(h: Hand, src: Source)
    requires
        source_ok(h, src),
        next_hand(h, src) is Some,
    ensures
        pool(next_hand(h, src).unwrap()) + 1 == pool(h),
{
    assert(queue_groups(0) == 0);
    if h.1 != 0 {
        assert(queue_groups(h.1) == 1 + queue_groups(h.1 >> 3));
        if h.1 >> 3 != 0 {
            assert(queue_groups(h.1 >> 3) == 1 + queue_groups((h.1 >> 3) >> 3));
        }
    }
}

/// One play of a plan: the way the piece is played, and a walk of moves on
/// the board from the spawn position to the piece that locks.
pub type Step = (Source, Seq<Piece>);

/// The steps, played one after the other from board `b` and hand `h`, each
/// lock a piece that a walk reaches, every board before the last passes the
/// pruning tests, and the last board is full.
pub open spec fn plan_ok(b: Board, h: Hand, steps: Seq<Step>) -> bool
    decreases steps.len(),
{
    if steps.len() == 0 {
        false
    } else {
        let src = steps[0].0;
        let w = steps[0].1;
        let nb = w.last().spec_place(b);
        &&& source_ok(h, src)
        &&& is_walk(b, played(h, src), w)
        &&& w.last().spec_can_place(b)
        &&& if steps.len() == 1 {
            nb == Board(BOARD_MASK)
        } else {
            &&& spec_is_pcable(nb.0)
            &&& next_hand(h, src) is Some
            &&& plan_ok(nb, next_hand(h, src).unwrap(), steps.drop_first())
        }
    }
}

/// The steps, played one after the other from board `b` and hand `h`, each
/// lock a piece that a walk reaches into a board that passes the pruning
/// tests, and end on board `b2` with hand `h2`.
pub open spec fn plan_to(b: Board, h: Hand, steps: Seq<Step>, b2: Board, h2: Hand) -> bool
    decreases steps.len(),
{
    if steps.len() == 0 {
        b == b2 && h == h2
    } else {
        let src = steps[0].0;
        let w = steps[0].1;
        let nb = w.last().spec_place(b);
        &&& source_ok(h, src)
        &&& is_walk(b, played(h, src), w)
        &&& w.last().spec_can_place(b)
        &&& spec_is_pcable(nb.0)
        &&& next_hand(h, src) is Some
        &&& plan_to(nb, next_hand(h, src).unwrap(), steps.drop_first(), b2, h2)
    }
}

/// Some steps lead from board `b` and hand `h` to board `b2` and hand `h2`.
#[verifier::opaque]
pub open spec fn plan_reaches(b: Board, h: Hand, b2: Board, h2: Hand) -> bool {
    exists|steps: Seq<Step>| plan_to(b, h, steps, b2, h2)
}

/// A play from the end of a plan extends it.
proof fn lemma_plan_to_push(b: Board, h: Hand, steps: Seq<Step>, b2: Board, h2: Hand, st: Step)
    requires
        plan_to(b, h, steps, b2, h2),
        source_ok(h2, st.0),
        is_walk(b2, played(h2, st.0), st.1),
        st.1.last().spec_can_place(b2),
        spec_is_pcable(st.1.last().spec_place(b2).0),
        next_hand(h2, st.0) is Some,
    ensures
        plan_to(b, h, steps.push(st), st.1.last().spec_place(b2), next_hand(h2, st.0).unwrap()),
    decreases steps.len(),
{
    let nb2 = st.1.last().spec_place(b2);
    let n2 = next_hand(h2, st.0).unwrap();
    if steps.len() == 0 {
        assert(steps.push(st).drop_first() =~= Seq::<Step>::empty());
        assert(steps.push(st)[0] == st);
        assert(plan_to(nb2, n2, Seq::<Step>::empty(), nb2, n2));
    } else {
        assert(steps.push(st).drop_first() =~= steps.drop_first().push(st));
        assert(steps.push(st)[0] == steps[0]);
        let nb = steps[0].1.last().spec_place(b);
        lemma_plan_to_push(nb, next_hand(h, steps[0].0).unwrap(), steps.drop_first(), b2, h2, st);
    }
}

/// A play that fills the board from the end of a plan completes it.
proof fn lemma_plan_to_finish(b: Board, h: Hand, steps: Seq<Step>, b2: Board, h2: Hand, st: Step)
    requires
        plan_to(b, h, steps, b2, h2),
        source_ok(h2, st.0),
        is_walk(b2, played(h2, st.0), st.1),
        st.1.last().spec_can_place(b2),
        st.1.last().spec_place(b2) == Board(BOARD_MASK),
    ensures
        plan_ok(b, h, steps.push(st)),
    decreases steps.len(),
{
    if steps.len() == 0 {
        assert(steps.push(st) =~= seq![st]);
    } else {
        assert(steps.push(st).drop_first() =~= steps.drop_first().push(st));
        assert(steps.push(st)[0] == steps[0]);
        let nb = steps[0].1.last().spec_place(b);
        lemma_plan_to_finish(nb, next_hand(h, steps[0].0).unwrap(), steps.drop_first(), b2, h2, st);
    }
}

/// Some plan clears board `b` from hand `h`.
pub open spec fn solvable(b: Board, h: Hand) -> bool {
    exists|steps: Seq<Step>| plan_ok(b, h, steps)
}

/// Raised by `n` rows, board `b` passes the pruning tests and some plan
/// clears it from hand `h`: the search with `n` raised rows then finds a
/// perfect clear.
pub open spec fn clear_owed(b: Board, n: int, h: Hand) -> bool {
    let s = Board(raised(b.0, n));
    &&& spec_is_pcable(s.0)
    &&& solvable(s, h)
}

/// The board after locking cells `c` into `b`: full rows sink.
pub open spec fn board_after(b: Board, c: u64) -> Board {
    Board(stack(settled(b.0 | c)) as u64)
}

/// Pieces a stage can still place: two per queued piece, one more for a
/// held piece. Every stage the search derives from a stage has less.
pub open spec fn potential(s: Stage) -> nat {
    2 * queue_groups(s.left.0) + if s.hold is Some { 1nat } else { 0nat }
}

/// How many stages of `v` have potential `l`.
pub open spec fn level_count(v: Seq<Stage>, l: nat) -> nat
    decreases v.len(),
{
    if v.len() == 0 {
        0
    } else {
        level_count(v.drop_last(), l) + if potential(v.last()) == l { 1nat } else { 0nat }
    }
}

proof fn lemma_level_push(v: Seq<Stage>, s: Stage, l: nat)
    ensures
        level_count(v.push(s), l) == level_count(v, l) + if potential(s) == l { 1nat } else { 0nat },
{
    assert(v.push(s).drop_last() =~= v);
}

proof fn lemma_level_remove(v: Seq<Stage>, i: int, l: nat)
    requires
        0 <= i < v.len(),
    ensures
        level_count(v, l) == level_count(v.remove(i), l) + if potential(v[i]) == l { 1nat } else { 0nat },
    decreases v.len(),
{
    if i < v.len() - 1 {
        assert(v.remove(i).drop_last() =~= v.drop_last().remove(i));
        assert(v.remove(i).last() == v.last());
        lemma_level_remove(v.drop_last(), i, l);
    } else {
        assert(v.remove(i) =~= v.drop_last());
    }
}

/// Removes and returns a stage that no remaining stage comes after in the
/// stage order (the greatest, as a max-heap would pop it), with its index.
fn pop_max(v: &mut Vec<Stage>) -> (r: (usize, Stage))
    requires
        old(v).len() > 0,
    ensures
        r.0 < old(v).len(),
        r.1 == old(v)@[r.0 as int],
        final(v)@ == old(v)@.remove(r.0 as int),
        forall|j: int| 0 <= j < final(v)@.len() ==> !stage_lt(r.1.key(), #[trigger] final(v)@[j].key()),
{
    let mut best: usize = 0;
    let mut i: usize = 1;
    while i < v.len()
        invariant
            1 <= i <= v.len(),
            best < i,
            forall|j: int| 0 <= j < i ==> !stage_lt(v@[best as int].key(), #[trigger] v@[j].key()),
        decreases v.len() - i,
    {
        if v[best].less(&v[i]) {
            proof {
                assert forall|j: int| 0 <= j < i + 1 implies !stage_lt(v@[i as int].key(), #[trigger] v@[j].key()) by {
                    lemma_stage_order(v@[j].key(), v@[best as int].key(), v@[i as int].key());
                    lemma_stage_order(v@[i as int].key(), v@[j].key(), v@[i as int].key());
                    lemma_stage_order(v@[best as int].key(), v@[i as int].key(), v@[j].key());
                }
            }
            best = i;
        }
        i = i + 1;
    }
    let ghost old_v = v@;
    let t = v.remove(best);
    proof {
        assert forall|j: int| 0 <= j < v@.len() implies !stage_lt(t.key(), #[trigger] v@[j].key()) by {
            if j < best {
                assert(v@[j] == old_v[j]);
            } else {
                assert(v@[j] == old_v[j + 1]);
            }
        }
    }
    (best, t)
}

/// The stages the search has already queued, compared as values.
struct StageSet {
    items: Vec<Stage>,
}

impl StageSet {
    /// The stage is in the set, as a value.
    spec fn has(&self, k: StageKey) -> bool {
        exists|i: int| 0 <= i < self.items@.len() && #[trigger] self.items@[i].key() == k
    }

    /// A stage with board `b` and hand `h` is in the set.
    spec fn abs_has(&self, b: Board, h: Hand) -> bool {
        exists|i: int| #![trigger self.items@[i]] 0 <= i < self.items@.len() && self.items@[i].bit_board == b && hand_of(self.items@[i]) == h
    }

    fn new() -> (r: StageSet)
        ensures
            forall|k: StageKey| !r.has(k),
            forall|b: Board, h: Hand| !r.abs_has(b, h),
    {
        StageSet { items: Vec::new() }
    }

    fn contains(&self, s: &Stage) -> (r: bool)
        ensures
            r == self.has(s.key()),
            r ==> self.abs_has(s.bit_board, hand_of(*s)),
    {
        let mut i: usize = 0;
        while i < self.items.len()
            invariant
                i <= self.items.len(),
                forall|j: int| 0 <= j < i ==> #[trigger] self.items@[j].key() != s.key(),
            decreases self.items.len() - i,
        {
            if self.items[i].same(s) {
                proof {
                    assert(self.items@[i as int].key() == s.key());
                    assert(self.items@[i as int].bit_board == s.bit_board);
                }
                return true;
            }
            i = i + 1;
        }
        false
    }

    fn insert(&mut self, s: Stage)
        ensures
            forall|k: StageKey| final(self).has(k) == (old(self).has(k) || k == s.key()),
            forall|b: Board, h: Hand| #[trigger] final(self).abs_has(b, h) == (old(self).abs_has(b, h) || (b == s.bit_board && h == hand_of(s))),
    {
        let ghost old_items = self.items@;
        self.items.push(s);
        proof {
            assert forall|k: StageKey| self.has(k) == (old(self).has(k) || k == s.key()) by {
                if old(self).has(k) {
                    let i = choose|i: int| 0 <= i < old_items.len() && #[trigger] old_items[i].key() == k;
                    assert(self.items@[i] == old_items[i]);
                }
                if k == s.key() {
                    assert(self.items@[old_items.len() as int] == s);
                }
                if self.has(k) {
                    let i = choose|i: int| 0 <= i < self.items@.len() && #[trigger] self.items@[i].key() == k;
                    if i < old_items.len() {
                        assert(old_items[i] == self.items@[i]);
                    }
                }
            }
            assert forall|b: Board, h: Hand| #[trigger] self.abs_has(b, h) == (old(self).abs_has(b, h) || (b == s.bit_board && h == hand_of(s))) by {
                if old(self).abs_has(b, h) {
                    let i = choose|i: int| #![trigger old_items[i]] 0 <= i < old_items.len() && old_items[i].bit_board == b && hand_of(old_items[i]) == h;
                    assert(self.items@[i] == old_items[i]);
                }
                if b == s.bit_board && h == hand_of(s) {
                    assert(self.items@[old_items.len() as int] == s);
                }
                if self.abs_has(b, h) {
                    let i = choose|i: int| #![trigger self.items@[i]] 0 <= i < self.items@.len() && self.items@[i].bit_board == b && hand_of(self.items@[i]) == h;
                    if i < old_items.len() {
                        assert(old_items[i] == self.items@[i]);
                    }
                }
            }
        }
    }
}

/// Queues `s` unless a stage equal to it was queued before; a queued stage
/// is recorded in `visited`.
fn offer(frontier: &mut Vec<Stage>, visited: &mut StageSet, s: Stage)
    ensures
        final(frontier)@ == if old(visited).has(s.key()) { old(frontier)@ } else { old(frontier)@.push(s) },
        forall|k: StageKey| final(visited).has(k) == (old(visited).has(k) || k == s.key()),
        forall|b: Board, h: Hand| #[trigger] final(visited).abs_has(b, h) == (old(visited).abs_has(b, h) || (b == s.bit_board && h == hand_of(s))),
        final(visited).abs_has(s.bit_board, hand_of(s)),
{
    if !visited.contains(&s) {
        visited.insert(s.copy());
        frontier.push(s);
    }
}

/// A board and hand of the first stage, or of a stage queued since.
spec fn known(vis: StageSet, a0: (Board, Hand), b: Board, h: Hand) -> bool {
    vis.abs_has(b, h) || (b, h) == a0
}

/// A stage with board `b` and hand `h` waits in `f`.
spec fn open(f: Seq<Stage>, b: Board, h: Hand) -> bool {
    exists|i: int| #![trigger f[i]] 0 <= i < f.len() && f[i].bit_board == b && hand_of(f[i]) == h
}

/// Locking cells `c` into `b`, played from `h` in the way `src`, does not
/// fill the board, and a board that passes the pruning tests has been
/// queued with the hand after the play.
spec fn handled(vis: StageSet, a0: (Board, Hand), b: Board, h: Hand, src: Source, c: u64) -> bool {
    let nb = board_after(b, c);
    &&& nb != Board(BOARD_MASK)
    &&& spec_is_pcable(nb.0) ==> next_hand(h, src) is Some && known(vis, a0, nb, next_hand(h, src).unwrap())
}

/// Every lockable piece that a walk reaches, played from `h` in the way
/// `src`, is handled.
spec fn expanded_src(vis: StageSet, a0: (Board, Hand), b: Board, h: Hand, src: Source) -> bool {
    forall|w: Seq<Piece>| #[trigger] is_walk(b, played(h, src), w) && w.last().spec_can_place(b) ==> handled(vis, a0, b, h, src, w.last().cells())
}

/// Every way of playing from `h` has been expanded.
spec fn done(vis: StageSet, a0: (Board, Hand), b: Board, h: Hand) -> bool {
    forall|src: Source| source_ok(h, src) ==> #[trigger] expanded_src(vis, a0, b, h, src)
}

/// `v2` holds every board and hand that `v1` holds.
spec fn vis_grows(v1: StageSet, v2: StageSet) -> bool {
    forall|b: Board, h: Hand| #[trigger] v1.abs_has(b, h) ==> v2.abs_has(b, h)
}

proof fn lemma_expanded_grows(v1: StageSet, v2: StageSet, a0: (Board, Hand), b: Board, h: Hand, src: Source)
    requires
        vis_grows(v1, v2),
        expanded_src(v1, a0, b, h, src),
    ensures
        expanded_src(v2, a0, b, h, src),
{
    assert forall|w: Seq<Piece>| #[trigger] is_walk(b, played(h, src), w) && w.last().spec_can_place(b) implies handled(v2, a0, b, h, src, w.last().cells()) by {
        assert(handled(v1, a0, b, h, src, w.last().cells()));
        let nb = board_after(b, w.last().cells());
        if spec_is_pcable(nb.0) && v1.abs_has(nb, next_hand(h, src).unwrap()) {
            assert(v2.abs_has(nb, next_hand(h, src).unwrap()));
        }
    }
}

proof fn lemma_done_grows(v1: StageSet, v2: StageSet, a0: (Board, Hand), b: Board, h: Hand)
    requires
        vis_grows(v1, v2),
        done(v1, a0, b, h),
    ensures
        done(v2, a0, b, h),
{
    assert forall|src: Source| source_ok(h, src) implies #[trigger] expanded_src(v2, a0, b, h, src) by {
        assert(expanded_src(v1, a0, b, h, src));
        lemma_expanded_grows(v1, v2, a0, b, h, src);
    }
}

/// The way besides `Main` in which the search plays from `h`, or `Main`
/// when there is none.
spec fn alt_source(h: Hand) -> Source {
    if h.1 != 0 && h.2 is None {
        Source::FromQueue
    } else if h.1 != 0 {
        Source::FromHold
    } else if h.2 is Some {
        Source::FromHoldLast
    } else {
        Source::Main
    }
}

/// Expanding `Main` and the other way gives all ways.
proof fn lemma_done_of(vis: StageSet, a0: (Board, Hand), b: Board, h: Hand)
    requires
        expanded_src(vis, a0, b, h, Source::Main),
        expanded_src(vis, a0, b, h, alt_source(h)),
    ensures
        done(vis, a0, b, h),
{
    assert forall|src: Source| source_ok(h, src) implies #[trigger] expanded_src(vis, a0, b, h, src) by {
        match src {
            Source::Main => {},
            _ => {
                assert(src == alt_source(h));
            },
        }
    }
}

/// With every known board and hand expanded, no plan clears a known board
/// from its hand.
proof fn lemma_no_plan(vis: StageSet, a0: (Board, Hand), b: Board, h: Hand, steps: Seq<Step>)
    requires
        forall|b2: Board, h2: Hand| #[trigger] known(vis, a0, b2, h2) ==> done(vis, a0, b2, h2),
        known(vis, a0, b, h),
    ensures
        !plan_ok(b, h, steps),
    decreases steps.len(),
{
    if !plan_ok(b, h, steps) {
        return;
    }
    let src = steps[0].0;
    let w = steps[0].1;
    assert(done(vis, a0, b, h));
    assert(expanded_src(vis, a0, b, h, src));
    assert(is_walk(b, played(h, src), w));
    assert(handled(vis, a0, b, h, src, w.last().cells()));
    let nb = w.last().spec_place(b);
    assert(nb == board_after(b, w.last().cells()));
    if steps.len() > 1 {
        let n = next_hand(h, src).unwrap();
        assert(known(vis, a0, nb, n));
        lemma_no_plan(vis, a0, nb, n, steps.drop_first());
    }
}

/// The full board has forty filled cells.
proof fn lemma_full_count()
    ensures
        popcount(BOARD_MASK) == 40,
{
    lemma2_to64();
    lemma2_to64_rest();
    lemma_popcount_ones(40);
}

proof fn lemma_popcount_ones(n: nat)
    requires
        n <= 63,
    ensures
        pow2(n) >= 1,
        popcount((pow2(n) - 1) as u64) == n,
    decreases n,
{
    lemma2_to64();
    lemma2_to64_rest();
    if n > 0 {
        lemma_pow2_unfold(n);
        lemma_popcount_ones((n - 1) as nat);
        let x = (pow2(n) - 1) as u64;
        assert(x % 2 == 1);
        assert(x / 2 == (pow2((n - 1) as nat) - 1) as u64);
    }
}

/// A plan from a board inside the four rows has one play per four empty
/// cells, and no more plays than the hand has pieces.
proof fn lemma_plan_count(b: Board, h: Hand, steps: Seq<Step>)
    requires
        plan_ok(b, h, steps),
        b.0 >> 40u64 == 0,
    ensures
        popcount(b.0) + 4 * steps.len() == 40,
        steps.len() <= pool(h),
    decreases steps.len(),
{
    let src = steps[0].0;
    let w = steps[0].1;
    let p = w.last();
    lemma_walk_sound(b, played(h, src), w, w.len() - 1);
    lemma_in_bounds_defined(p);
    lemma_place_adds_four_cells(p, b);
    let nb = p.spec_place(b);
    if steps.len() == 1 {
        lemma_full_count();
    } else {
        lemma_pool_step(h, src);
        lemma_plan_count(nb, next_hand(h, src).unwrap(), steps.drop_first());
    }
}

/// Pieces in bounds that lock one after the other from a board inside the
/// four rows into the full board, every board on the way passing the pruning
/// tests, number one per four empty cells.
proof fn lemma_play_count(b: Board, sol: Seq<Piece>)
    requires
        b.0 >> 40u64 == 0,
        play(b, sol, true) == (Board(BOARD_MASK), true),
        forall|i: int| 0 <= i < sol.len() ==> (#[trigger] sol[i]).spec_in_bounds(),
    ensures
        popcount(b.0) + 4 * sol.len() == 40,
    decreases sol.len(),
{
    if sol.len() == 0 {
        lemma_full_count();
    } else {
        let p = sol[0];
        lemma_in_bounds_defined(p);
        lemma_place_adds_four_cells(p, b);
        let nb = p.spec_place(b);
        lemma_play_ok_stays(nb, sol.drop_first());
        assert forall|i: int| 0 <= i < sol.drop_first().len() implies (#[trigger] sol.drop_first()[i]).spec_in_bounds() by {
            assert(sol.drop_first()[i] == sol[i + 1]);
        }
        lemma_play_count(nb, sol.drop_first());
    }
}

/// A run that ends well started well.
proof fn lemma_play_ok_stays(b: Board, sol: Seq<Piece>)
    ensures
        !play(b, sol, false).1,
    decreases sol.len(),
{
    if sol.len() > 0 && sol[0].spec_can_place(b) && sol[0].cells() & b.0 == 0 {
        lemma_play_ok_stays(sol[0].spec_place(b), sol.drop_first());
    }
}

/// Pruning never loses a clear: no plan clears a board inside the four rows
/// that the pruning tests rule out.
pub proof fn lemma_pruned_unsolvable(b: Board, h: Hand)
    requires
        b.0 >> 40u64 == 0,
        !spec_is_pcable(b.0),
    ensures
        !solvable(b, h),
{
    assert forall|steps: Seq<Step>| !plan_ok(b, h, steps) by {
        if steps.len() > 0 && plan_ok(b, h, steps) {
            let src = steps[0].0;
            let w = steps[0].1;
            let p = w.last();
            lemma_walk_sound(b, played(h, src), w, w.len() - 1);
            lemma_in_bounds_defined(p);
            lemma_pruned_board_keeps_defect(p, b);
        }
    }
}

/// A board inside the four rows with forty filled cells is the full board.
proof fn lemma_forty_cells(x: u64)
    requires
        x >> 40u64 == 0,
        popcount(x) == 40,
    ensures
        x == BOARD_MASK,
{
    lemma2_to64();
    lemma2_to64_rest();
    assert(x >> 40u64 == 0 ==> x < 0x100_0000_0000) by (bit_vector);
    lemma_popcount_full(x, 40);
}

proof fn lemma_popcount_full(x: u64, n: nat)
    requires
        n <= 64,
        x < pow2(n),
        popcount(x) == n,
    ensures
        x == pow2(n) - 1,
    decreases n,
{
    lemma2_to64();
    if n > 0 {
        lemma_pow2_unfold(n);
        let y = x / 2;
        assert(y < pow2((n - 1) as nat));
        lemma_popcount_below(y, (n - 1) as nat);
        lemma_popcount_full(y, (n - 1) as nat);
    }
}

/// Locking a piece into a board inside the four rows with 36 filled cells
/// fills it, when the result passes the pruning tests.
proof fn lemma_last_piece_fills(b: Board, p: Piece)
    requires
        b.0 >> 40u64 == 0,
        popcount(b.0) == 36,
        p.place_ok(b),
        spec_is_pcable(p.spec_place(b).0),
    ensures
        p.spec_place(b) == Board(BOARD_MASK),
{
    lemma_place_adds_four_cells(p, b);
    lemma_forty_cells(p.spec_place(b).0);
}

/// Locks each placement of `shape` into the board of `t`: a perfect clear
/// ends the search with its pieces, other clearable boards are queued as
/// stages (unless seen before) whose piece, queue and hold come from `src`.
/// In `Main` with nothing queued and nothing held, a clearable board that is
/// not a perfect clear ends the search with no solution.
fn expand(
    start: Board,
    Ghost(h0): Ghost<Hand>,
    Ghost(base): Ghost<Seq<Piece>>,
    t: &Stage,
    shape: Shape,
    src: Source,
    frontier: &mut Vec<Stage>,
    visited: &mut StageSet,
) -> (r: Option<Vec<Piece>>)
    requires
        reached(start, h0, base, *t),
        source_ok(hand_of(*t), src),
        shape == played(hand_of(*t), src),
        forall|i: int| 0 <= i < old(frontier)@.len() ==> reached(start, h0, base, #[trigger] old(frontier)@[i]),
    ensures
        forall|i: int| 0 <= i < final(frontier)@.len() ==> reached(start, h0, base, #[trigger] final(frontier)@[i]),
        forall|l: nat| l >= potential(*t) ==> #[trigger] level_count(final(frontier)@, l) == level_count(old(frontier)@, l),
        final(frontier)@.len() >= old(frontier)@.len(),
        forall|i: int| 0 <= i < old(frontier)@.len() ==> #[trigger] final(frontier)@[i] == old(frontier)@[i],
        vis_grows(*old(visited), *final(visited)),
        forall|b: Board, h: Hand| #[trigger] final(visited).abs_has(b, h) && !old(visited).abs_has(b, h) ==> open(final(frontier)@, b, h),
        match r {
            Some(v) => if v@.len() == 0 {
                &&& src == Source::Main
                &&& t.left.0 == 0
                &&& t.hold is None
                &&& exists|p: Piece| #[trigger] p.place_ok(t.bit_board) && spec_is_pcable(p.spec_place(t.bit_board).0)
                    && p.spec_place(t.bit_board) != Board(BOARD_MASK)
            } else {
                &&& v@.len() > base.len()
                &&& v@.subrange(0, base.len() as int) == base
                &&& play(start, v@.skip(base.len() as int), true) == (Board(BOARD_MASK), true)
                &&& playable(h0, shapes_of(v@.skip(base.len() as int)))
                &&& forall|i: int| base.len() <= i < v@.len() ==> (#[trigger] v@[i]).spec_in_bounds()
                &&& solvable(start, h0)
            },
            None => expanded_src(*final(visited), (start, h0), t.bit_board, hand_of(*t), src),
        },
{
    let ghost a0 = (start, h0);
    let ghost b0 = t.bit_board;
    let ghost h = hand_of(*t);
    let mut placer = PiecePlacer::new(t.bit_board, shape);
    let mut more = true;
    proof {
        lemma_valid_queue_go(t.left.0);
        lemma_valid_queue_go(t.left.0 >> 3);
        lemma_full_board_pcable();
    }
    while more
        invariant
            placer.wf(),
            placer.spec_board() == t.bit_board,
            placer.spec_shape() == shape,
            reached(start, h0, base, *t),
            source_ok(hand_of(*t), src),
            shape == played(hand_of(*t), src),
            valid_queue(t.left.0 >> 3),
            t.left.0 & 7 != 7,
            (t.left.0 >> 3) & 7 != 7,
            t.left.0 != 0 ==> queue_groups(t.left.0 >> 3) + 1 == queue_groups(t.left.0),
            valid_queue((t.left.0 >> 3) >> 3),
            (t.left.0 >> 3) != 0 ==> queue_groups((t.left.0 >> 3) >> 3) + 1 == queue_groups(t.left.0 >> 3),
            spec_is_pcable(BOARD_MASK),
            b0 == t.bit_board,
            h == hand_of(*t),
            a0 == (start, h0),
            forall|i: int| 0 <= i < frontier@.len() ==> reached(start, h0, base, #[trigger] frontier@[i]),
            forall|l: nat| l >= potential(*t) ==> #[trigger] level_count(frontier@, l) == level_count(old(frontier)@, l),
            frontier@.len() >= old(frontier)@.len(),
            forall|i: int| 0 <= i < old(frontier)@.len() ==> #[trigger] frontier@[i] == old(frontier)@[i],
            vis_grows(*old(visited), *visited),
            forall|b: Board, h: Hand| #[trigger] visited.abs_has(b, h) && !old(visited).abs_has(b, h) ==> open(frontier@, b, h),
            forall|c: u64| #[trigger] placer.spec_returned().contains(c) ==> handled(*visited, a0, b0, h, src, c),
            !more ==> forall|w: Seq<Piece>|
                is_walk(t.bit_board, shape, w) && #[trigger] w.last().spec_can_place(t.bit_board)
                    ==> placer.spec_returned().contains(w.last().cells()),
        decreases placer.remaining(), if more { 1int } else { 0int },
    {
        let ghost returned_before = placer.spec_returned();
        match placer.next() {
            None => {
                more = false;
            },
            Some((new_piece, new_board)) => {
                proof {
                    assert(new_board == new_piece.spec_place(t.bit_board));
                    assert(new_board == board_after(b0, new_piece.cells()));
                }
                if new_board.is_pcable() {
                    let mut new_placed = copy_pieces(&t.placed);
                    new_placed.push(new_piece);
                    let ghost m = base.len() as int;
                    let ghost tail = t.placed@.skip(m);
                    let ghost new_tail = new_placed@.skip(m);
                    proof {
                        lemma_play_push(start, tail, new_piece, true);
                        assert(seq![new_piece].drop_first() =~= Seq::<Piece>::empty());
                        assert(new_piece.spec_can_place(t.bit_board));
                        assert(new_board == new_piece.spec_place(t.bit_board));
                        assert(spec_is_pcable(new_board.0));
                        assert(seq![new_piece][0] == new_piece);
                        assert(play(new_board, Seq::<Piece>::empty(), true) == (new_board, true));
                        assert(play(t.bit_board, seq![new_piece], true) == (new_board, true));
                        assert(new_placed@ == t.placed@.push(new_piece));
                        assert(new_tail =~= tail.push(new_piece));
                        assert(new_placed@.subrange(0, m) =~= t.placed@.subrange(0, m));
                        assert(play(start, new_tail, true) == (new_board, true));
                        assert(shapes_of(new_tail) =~= shapes_of(tail).push(shape));
                        assert(shapes_of(new_tail).drop_last() =~= shapes_of(tail));
                    }
                    proof {
                        reveal(walk_reaches);
                        reveal(plan_reaches);
                    }
                    let ghost w = choose|w: Seq<Piece>| is_walk(t.bit_board, shape, w) && w.last() == new_piece;
                    let ghost steps = choose|steps: Seq<Step>| plan_to(start, h0, steps, t.bit_board, hand_of(*t));
                    if new_board.is_pc() {
                        proof {
                            lemma_plan_to_finish(start, h0, steps, t.bit_board, hand_of(*t), (src, w));
                            assert(leads_to(h0, shapes_of(new_tail).drop_last(), hand_of(*t)));
                            assert(source_ok(hand_of(*t), src));
                        }
                        return Some(new_placed);
                    }
                    let next = match src {
                        Source::Main => {
                            if !t.left.is_empty() {
                                (t.left.now(), t.left.go(), t.hold)
                            } else if t.hold.is_some() {
                                (t.hold.unwrap(), PieceQueue(0), None)
                            } else {
                                proof {
                                    assert(new_piece.place_ok(t.bit_board));
                                }
                                return Some(Vec::new());
                            }
                        },
                        Source::FromQueue => {
                            if t.left.go().is_empty() {
                                (t.piece, PieceQueue(0), None)
                            } else {
                                (t.left.go().now(), t.left.go().go(), Some(t.piece))
                            }
                        },
                        Source::FromHold => (t.left.now(), t.left.go(), Some(t.piece)),
                        Source::FromHoldLast => (t.piece, PieceQueue(0), None),
                    };
                    let new_stage = Stage {
                        evaluation: new_board.evaluate(),
                        bit_board: new_board,
                        piece: next.0,
                        placed: new_placed,
                        left: next.1,
                        hold: next.2,
                    };
                    proof {
                        lemma_zero_queue_valid();
                        assert(next_hand(hand_of(*t), src) == Some(hand_of(new_stage)));
                        lemma_leads_push(h0, shapes_of(tail), hand_of(*t), src, hand_of(new_stage));
                        lemma_pool_step(hand_of(*t), src);
                        lemma_place_adds_four_cells(new_piece, t.bit_board);
                        lemma_plan_to_push(start, h0, steps, t.bit_board, hand_of(*t), (src, w));
                        assert(plan_to(start, h0, steps.push((src, w)), new_stage.bit_board, hand_of(new_stage)));
                        assert(potential(new_stage) < potential(*t));
                        assert(reached(start, h0, base, new_stage));
                        let ghost before = frontier@;
                        assert forall|l: nat| l >= potential(*t) implies #[trigger] level_count(
                            before.push(new_stage),
                            l,
                        ) == level_count(before, l) by {
                            lemma_level_push(before, new_stage, l);
                        }
                    }
                    let ghost before = frontier@;
                    let ghost vis_before = *visited;
                    offer(frontier, visited, new_stage);
                    proof {
                        assert forall|i: int| 0 <= i < frontier@.len() implies reached(start, h0, base, #[trigger] frontier@[i]) by {
                            if i < before.len() {
                                assert(frontier@[i] == before[i]);
                            }
                        }
                        assert forall|i: int| 0 <= i < old(frontier)@.len() implies #[trigger] frontier@[i] == old(frontier)@[i] by {
                            assert(frontier@[i] == before[i]);
                        }
                        assert(vis_grows(vis_before, *visited));
                        assert forall|b: Board, hh: Hand| #[trigger] visited.abs_has(b, hh) && !old(visited).abs_has(b, hh) implies open(frontier@, b, hh) by {
                            if vis_before.abs_has(b, hh) {
                                assert(open(before, b, hh));
                                let i = choose|i: int| #![trigger before[i]] 0 <= i < before.len() && before[i].bit_board == b && hand_of(before[i]) == hh;
                                assert(frontier@[i] == before[i]);
                            } else {
                                assert(b == new_stage.bit_board && hh == hand_of(new_stage));
                                if vis_before.has(new_stage.key()) {
                                    assert(vis_before.abs_has(new_stage.bit_board, hand_of(new_stage))) by {
                                        let i = choose|i: int| 0 <= i < vis_before.items@.len() && #[trigger] vis_before.items@[i].key() == new_stage.key();
                                        assert(vis_before.items@[i].bit_board == new_stage.bit_board);
                                    }
                                }
                                assert(frontier@[before.len() as int] == new_stage);
                            }
                        }
                        assert forall|c: u64| #[trigger] placer.spec_returned().contains(c) implies handled(*visited, a0, b0, h, src, c) by {
                            if c != new_piece.cells() {
                                assert(returned_before.contains(c));
                                let nb = board_after(b0, c);
                                assert(handled(vis_before, a0, b0, h, src, c));
                                if spec_is_pcable(nb.0) && vis_before.abs_has(nb, next_hand(h, src).unwrap()) {
                                    assert(visited.abs_has(nb, next_hand(h, src).unwrap()));
                                }
                            } else {
                                assert(visited.abs_has(new_stage.bit_board, hand_of(new_stage)));
                            }
                        }
                    }
                } else {
                    proof {
                        assert forall|c: u64| #[trigger] placer.spec_returned().contains(c) implies handled(*visited, a0, b0, h, src, c) by {
                            if c != new_piece.cells() {
                                assert(returned_before.contains(c));
                            }
                        }
                    }
                }
            },
        }
    }
    proof {
        assert forall|w: Seq<Piece>| #[trigger] is_walk(b0, played(h, src), w) && w.last().spec_can_place(b0) implies handled(*visited, a0, b0, h, src, w.last().cells()) by {
            assert(placer.spec_returned().contains(w.last().cells()));
        }
    }
    None
}

proof fn lemma_zero_queue_valid()
    ensures
        valid_queue(0),
        queue_groups(0) == 0,
{
    assert forall|k: u64| k < 21 implies #[trigger] ((0u64 >> (3 * k) as u64) & 7) != 7 by {
        lemma_word_basics(0, (3 * k) as u64);
    }
}

/// `b` starts with the stages of `a`.
spec fn extends(b: Seq<Stage>, a: Seq<Stage>) -> bool {
    b.len() >= a.len() && forall|i: int| 0 <= i < a.len() ==> #[trigger] b[i] == a[i]
}

/// Every board and hand that `v2` holds beyond `v1` has a stage waiting in `f`.
spec fn new_open(v1: StageSet, v2: StageSet, f: Seq<Stage>) -> bool {
    forall|b: Board, h: Hand| #[trigger] v2.abs_has(b, h) && !v1.abs_has(b, h) ==> open(f, b, h)
}

/// Every known board and hand waits in `f` or has been expanded.
spec fn all_covered(vis: StageSet, a0: (Board, Hand), f: Seq<Stage>) -> bool {
    forall|b: Board, h: Hand| #[trigger] known(vis, a0, b, h) ==> open(f, b, h) || done(vis, a0, b, h)
}

proof fn lemma_chain(f1: Seq<Stage>, fm: Seq<Stage>, f2: Seq<Stage>, v1: StageSet, vm: StageSet, v2: StageSet)
    requires
        extends(fm, f1),
        extends(f2, fm),
        vis_grows(v1, vm),
        vis_grows(vm, v2),
        new_open(v1, vm, fm),
        new_open(vm, v2, f2),
    ensures
        extends(f2, f1),
        vis_grows(v1, v2),
        new_open(v1, v2, f2),
{
    assert forall|i: int| 0 <= i < f1.len() implies #[trigger] f2[i] == f1[i] by {
        assert(fm[i] == f1[i]);
        assert(f2[i] == fm[i]);
    }
    assert forall|b: Board, h: Hand| #[trigger] v1.abs_has(b, h) implies v2.abs_has(b, h) by {
        assert(vm.abs_has(b, h));
    }
    assert forall|b: Board, h: Hand| #[trigger] v2.abs_has(b, h) && !v1.abs_has(b, h) implies open(f2, b, h) by {
        if vm.abs_has(b, h) {
            assert(open(fm, b, h));
            let i = choose|i: int| #![trigger fm[i]] 0 <= i < fm.len() && fm[i].bit_board == b && hand_of(fm[i]) == h;
            assert(f2[i] == fm[i]);
        }
    }
}

/// Popping the stage at `bi` and expanding its board and hand keeps every
/// known board and hand waiting or expanded.
proof fn lemma_covered_step(
    f0: Seq<Stage>,
    bi: int,
    f2: Seq<Stage>,
    v0: StageSet,
    v2: StageSet,
    a0: (Board, Hand),
)
    requires
        0 <= bi < f0.len(),
        all_covered(v0, a0, f0),
        extends(f2, f0.remove(bi)),
        vis_grows(v0, v2),
        new_open(v0, v2, f2),
        done(v2, a0, f0[bi].bit_board, hand_of(f0[bi])),
    ensures
        all_covered(v2, a0, f2),
{
    let f1 = f0.remove(bi);
    assert forall|b: Board, h: Hand| #[trigger] known(v2, a0, b, h) implies open(f2, b, h) || done(v2, a0, b, h) by {
        if v2.abs_has(b, h) && !v0.abs_has(b, h) {
        } else {
            assert(known(v0, a0, b, h));
            if done(v0, a0, b, h) {
                lemma_done_grows(v0, v2, a0, b, h);
            } else {
                assert(open(f0, b, h));
                let i = choose|i: int| #![trigger f0[i]] 0 <= i < f0.len() && f0[i].bit_board == b && hand_of(f0[i]) == h;
                if i != bi {
                    let j = if i < bi { i } else { i - 1 };
                    assert(f1[j] == f0[i]);
                    assert(f2[j] == f1[j]);
                }
            }
        }
    }
}

/// Best-first search from `stage`: the pieces it had placed followed by
/// the pieces of a perfect clear of its board, or nothing.
fn search_pc_impl(stage: Stage) -> (r: Vec<Piece>)
    requires
        valid_queue(stage.left.0),
    ensures
        r@.len() > 0 ==> {
            &&& spec_is_pcable(stage.bit_board.0)
            &&& r@.len() > stage.placed@.len()
            &&& r@.subrange(0, stage.placed@.len() as int) == stage.placed@
            &&& play(stage.bit_board, r@.skip(stage.placed@.len() as int), true) == (Board(BOARD_MASK), true)
            &&& playable(hand_of(stage), shapes_of(r@.skip(stage.placed@.len() as int)))
            &&& forall|i: int| stage.placed@.len() <= i < r@.len() ==> (#[trigger] r@[i]).spec_in_bounds()
            &&& solvable(stage.bit_board, hand_of(stage))
        },
        spec_is_pcable(stage.bit_board.0) && solvable(stage.bit_board, hand_of(stage)) ==> r@.len() > 0,
{
    if !stage.bit_board.is_pcable() {
        return Vec::new();
    }
    let start = stage.bit_board;
    let ghost h0 = hand_of(stage);
    let ghost base = stage.placed@;
    let ghost a0 = (start, h0);
    let mut visited = StageSet::new();
    let mut frontier: Vec<Stage> = Vec::new();
    proof {
        assert(stage.placed@.skip(base.len() as int) =~= Seq::<Piece>::empty());
        assert(stage.placed@.subrange(0, base.len() as int) =~= base);
        assert(play(start, Seq::<Piece>::empty(), true) == (start, true));
        assert(shapes_of(Seq::<Piece>::empty()) =~= Seq::<Shape>::empty());
        reveal(plan_reaches);
        assert(plan_to(start, h0, Seq::<Step>::empty(), start, h0));
    }
    frontier.push(stage);
    proof {
        assert forall|b: Board, h: Hand| #[trigger] known(visited, a0, b, h) implies open(frontier@, b, h) || done(visited, a0, b, h) by {
            assert(frontier@[0] == stage);
        }
    }
    while frontier.len() > 0
        invariant
            spec_is_pcable(start.0),
            start == stage.bit_board,
            h0 == hand_of(stage),
            base == stage.placed@,
            a0 == (start, h0),
            forall|i: int| 0 <= i < frontier@.len() ==> reached(start, h0, base, #[trigger] frontier@[i]),
            all_covered(visited, a0, frontier@),
        decreases level_count(frontier@, 45), level_count(frontier@, 44), level_count(frontier@, 43), level_count(frontier@, 42), level_count(frontier@, 41), level_count(frontier@, 40), level_count(frontier@, 39), level_count(frontier@, 38), level_count(frontier@, 37), level_count(frontier@, 36), level_count(frontier@, 35), level_count(frontier@, 34), level_count(frontier@, 33), level_count(frontier@, 32), level_count(frontier@, 31), level_count(frontier@, 30), level_count(frontier@, 29), level_count(frontier@, 28), level_count(frontier@, 27), level_count(frontier@, 26), level_count(frontier@, 25), level_count(frontier@, 24), level_count(frontier@, 23), level_count(frontier@, 22), level_count(frontier@, 21), level_count(frontier@, 20), level_count(frontier@, 19), level_count(frontier@, 18), level_count(frontier@, 17), level_count(frontier@, 16), level_count(frontier@, 15), level_count(frontier@, 14), level_count(frontier@, 13), level_count(frontier@, 12), level_count(frontier@, 11), level_count(frontier@, 10), level_count(frontier@, 9), level_count(frontier@, 8), level_count(frontier@, 7), level_count(frontier@, 6), level_count(frontier@, 5), level_count(frontier@, 4), level_count(frontier@, 3), level_count(frontier@, 2), level_count(frontier@, 1), level_count(frontier@, 0),
    {
        let ghost before = frontier@;
        let ghost v0 = visited;
        let (bi, t) = pop_max(&mut frontier);
        let ghost f = potential(t);
        proof {
            lemma_queue_groups_bound(t.left.0);
            assert(reached(start, h0, base, before[bi as int]));
            assert forall|i: int| 0 <= i < frontier@.len() implies reached(start, h0, base, #[trigger] frontier@[i]) by {
                if i < bi {
                    assert(frontier@[i] == before[i]);
                } else {
                    assert(frontier@[i] == before[i + 1]);
                }
            }
        }
        let ghost popped = frontier@;
        match expand(start, Ghost(h0), Ghost(base), &t, t.piece, Source::Main, &mut frontier, &mut visited) {
            Some(v) => {
                proof {
                    if solvable(start, h0) {
                        let steps = choose|steps: Seq<Step>| plan_ok(start, h0, steps);
                        lemma_plan_count(start, h0, steps);
                    }
                    lemma_no_abort(start, h0, base, t, v@);
                }
                return v;
            },
            None => {},
        }
        let ghost fm = frontier@;
        let ghost vm = visited;
        proof {
            assert(extends(fm, popped));
            assert(new_open(v0, vm, fm));
        }
        if t.left.is_empty() && t.hold.is_none() {
            proof {
                lemma_chain(popped, fm, frontier@, v0, vm, visited);
            }
        } else if (!t.left.is_empty()) && t.hold.is_none() {
            proof {
                lemma_valid_queue_go(t.left.0);
            }
            match expand(start, Ghost(h0), Ghost(base), &t, t.left.now(), Source::FromQueue, &mut frontier, &mut visited) {
                Some(v) => {
                    return v;
                },
                None => {},
            }
            proof {
                assert(extends(frontier@, fm));
                assert(new_open(vm, visited, frontier@));
                lemma_expanded_grows(vm, visited, a0, t.bit_board, hand_of(t), Source::Main);
                lemma_chain(popped, fm, frontier@, v0, vm, visited);
            }
        } else if (!t.left.is_empty()) && !t.hold.is_none() {
            match expand(start, Ghost(h0), Ghost(base), &t, t.hold.unwrap(), Source::FromHold, &mut frontier, &mut visited) {
                Some(v) => {
                    return v;
                },
                None => {},
            }
            proof {
                assert(extends(frontier@, fm));
                assert(new_open(vm, visited, frontier@));
                lemma_expanded_grows(vm, visited, a0, t.bit_board, hand_of(t), Source::Main);
                lemma_chain(popped, fm, frontier@, v0, vm, visited);
            }
        } else {
            match expand(start, Ghost(h0), Ghost(base), &t, t.hold.unwrap(), Source::FromHoldLast, &mut frontier, &mut visited) {
                Some(v) => {
                    return v;
                },
                None => {},
            }
            proof {
                assert(extends(frontier@, fm));
                assert(new_open(vm, visited, frontier@));
                lemma_expanded_grows(vm, visited, a0, t.bit_board, hand_of(t), Source::Main);
                lemma_chain(popped, fm, frontier@, v0, vm, visited);
            }
        }
        proof {
            assert forall|l: nat| l >= f implies #[trigger] level_count(frontier@, l) == level_count(popped, l) by {
            }
            assert forall|l: nat| l != f implies #[trigger] level_count(popped, l) == level_count(before, l) by {
                lemma_level_remove(before, bi as int, l);
            }
            lemma_level_remove(before, bi as int, f);
            assert(level_count(frontier@, f) < level_count(before, f));
            assert forall|l: nat| l > f implies #[trigger] level_count(frontier@, l) == level_count(before, l) by {
            }
            lemma_done_of(visited, a0, t.bit_board, hand_of(t));
            assert(popped == before.remove(bi as int));
            lemma_covered_step(before, bi as int, frontier@, v0, visited, a0);
        }
    }
    proof {
        if solvable(start, h0) {
            let steps = choose|steps: Seq<Step>| plan_ok(start, h0, steps);
            assert forall|b: Board, h: Hand| #[trigger] known(visited, a0, b, h) implies done(visited, a0, b, h) by {
                assert(open(frontier@, b, h) || done(visited, a0, b, h));
            }
            lemma_no_plan(visited, a0, start, h0, steps);
        }
    }
    Vec::new()
}

/// A search whose hand has pieces enough for the empty cells never gives up
/// in the middle: a main play with nothing queued or held locks the last
/// piece, which then fills the board.
proof fn lemma_no_abort(start: Board, h0: Hand, base: Seq<Piece>, t: Stage, v: Seq<Piece>)
    requires
        reached(start, h0, base, t),
        v.len() == 0 ==> t.left.0 == 0 && t.hold is None && exists|p: Piece| #[trigger] p.place_ok(t.bit_board)
            && spec_is_pcable(p.spec_place(t.bit_board).0) && p.spec_place(t.bit_board) != Board(BOARD_MASK),
    ensures
        popcount(start.0) + 4 * pool(h0) >= 40 ==> v.len() > 0,
{
    if v.len() == 0 && popcount(start.0) + 4 * pool(h0) >= 40 {
        assert(queue_groups(0) == 0);
        assert(pool(hand_of(t)) == 1);
        let p = choose|p: Piece| #[trigger] p.place_ok(t.bit_board) && spec_is_pcable(p.spec_place(t.bit_board).0)
            && p.spec_place(t.bit_board) != Board(BOARD_MASK);
        let nb = p.spec_place(t.bit_board);
        lemma_place_adds_four_cells(p, t.bit_board);
        lemma2_to64();
        lemma2_to64_rest();
        let x = nb.0;
        assert(x >> 40u64 == 0 ==> x < 0x100_0000_0000) by (bit_vector);
        lemma_popcount_below(nb.0, 40);
        lemma_last_piece_fills(t.bit_board, p);
    }
}


/// One search with the board raised by `n` rows.
fn search_raised(board: Board, piece: Shape, sequence: &Vec<Shape>, hold: Option<Shape>, n: usize) -> (r:
    Vec<Piece>)
    requires
        n < 4,
    ensures
        r@.len() > 0 ==> pc_with(board, r@, n as int),
        r@.len() > 0 ==> playable((piece, encode(sequence@), hold), shapes_of(r@)),
        r@.len() > 0 ==> popcount(raised(board.0, n as int)) + 4 * r@.len() == 40,
        clear_owed(board, n as int, (piece, encode(sequence@), hold)) <==> r@.len() > 0,
{
    let start = board.add_lines(n);
    let queue = sequence.clone();
    proof {
        lemma_encode_valid(queue@);
    }
    let r = search_pc_impl(
        Stage {
            evaluation: start.evaluate(),
            bit_board: start,
            piece: piece,
            placed: Vec::new(),
            left: PieceQueue::new(queue),
            hold: hold,
        },
    );
    proof {
        assert(start == Board(raised(board.0, n as int)));
        assert(r@.skip(0) =~= r@);
        if r@.len() > 0 {
            lemma_play_count(start, r@);
        }
    }
    r
}

/// Searches a perfect clear of `board` with `piece` in hand, `sequence`
/// queued and `hold` held. The board is first raised by full rows to make
/// the number of cells a multiple of four: by 2, then 0 rows when it holds
/// a multiple of four cells, by 3, then 1 rows when it holds two more; the
/// second number is tried only when the first finds nothing. The result is
/// the pieces to place and the number of rows added, or nothing (and 0).
pub fn search_pc(board: Board, piece: Shape, sequence: Vec<Shape>, hold: Option<Shape>) -> (r: (
    Vec<Piece>,
    usize,
))
    ensures
        popcount(board.0) % 4 == 1 || popcount(board.0) % 4 == 3 ==> r.0@.len() == 0,
        r.0@.len() == 0 ==> r.1 == 0,
        r.1 < 4,
        r.0@.len() > 0 ==> {
            &&& popcount(board.0) % 4 == 0 ==> r.1 == 2 || r.1 == 0
            &&& popcount(board.0) % 4 == 2 ==> r.1 == 3 || r.1 == 1
            &&& pc_with(board, r.0@, r.1 as int)
            &&& playable((piece, encode(sequence@), hold), shapes_of(r.0@))
            &&& popcount(raised(board.0, r.1 as int)) + 4 * r.0@.len() == 40
            &&& clear_owed(board, r.1 as int, (piece, encode(sequence@), hold))
        },
        popcount(board.0) % 4 == 0 && (clear_owed(board, 2, (piece, encode(sequence@), hold)) || clear_owed(
            board,
            0,
            (piece, encode(sequence@), hold),
        )) ==> r.0@.len() > 0,
        popcount(board.0) % 4 == 2 && (clear_owed(board, 3, (piece, encode(sequence@), hold)) || clear_owed(
            board,
            1,
            (piece, encode(sequence@), hold),
        )) ==> r.0@.len() > 0,
        r.0@.len() > 0 && popcount(board.0) % 4 == 0 && r.1 == 0 ==> !clear_owed(board, 2, (piece, encode(sequence@), hold)),
        r.0@.len() > 0 && popcount(board.0) % 4 == 2 && r.1 == 1 ==> !clear_owed(board, 3, (piece, encode(sequence@), hold)),
{
    let m = count_ones(board.0) % 4;
    if m == 0 {
        let res = search_raised(board, piece, &sequence, hold, 2);
        if res.len() > 0 {
            return (res, 2);
        }
        let res = search_raised(board, piece, &sequence, hold, 0);
        if res.len() > 0 {
            return (res, 0);
        }
    } else if m == 2 {
        let res = search_raised(board, piece, &sequence, hold, 3);
        if res.len() > 0 {
            return (res, 3);
        }
        let res = search_raised(board, piece, &sequence, hold, 1);
        if res.len() > 0 {
            return (res, 1);
        }
    } else {
        return (Vec::new(), 0);
    }
    (Vec::new(), 0)
}

/// A solution the search returns passes the check `soln_can_pc` makes: the
/// check finds a perfect clear with at most as many raised rows as the
/// search used.
pub proof fn lemma_search_solution_passes_check(board: Board, sol: Seq<Piece>, n: int)
    requires
        0 <= n < 4,
        pc_with(board, sol, n),
    ensures
        first_pc_from(board, sol, 0) matches Some(j) && j <= n,
{
    lemma_first_pc_upto(board, sol, n, 0);
}

proof fn lemma_first_pc_upto(board: Board, sol: Seq<Piece>, n: int, i: int)
    requires
        0 <= i <= n < 4,
        pc_with(board, sol, n),
    ensures
        first_pc_from(board, sol, i) matches Some(j) && j <= n,
    decreases n - i,
{
    if !pc_with(board, sol, i) {
        lemma_first_pc_upto(board, sol, n, i + 1);
    }
}

} // verus!
