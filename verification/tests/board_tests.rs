use pc_looper::board::{Board, BOARD_MASK};
use pc_looper::piece::Piece;
use pc_looper::queue::PieceQueue;
use pc_looper::shape::{Rotation, Shape};

#[test]
fn empty_and_pc_boards() {
    assert!(Board(0).is_empty());
    assert!(!Board(1).is_empty());
    assert!(Board(BOARD_MASK).is_pc());
    assert!(!Board(BOARD_MASK - 1).is_pc());
}

#[test]
fn lines_cleared_counts_full_bottom_rows_up_to_three() {
    assert_eq!(Board(0).lines_cleared(), 0);
    assert_eq!(Board(0x3ff).lines_cleared(), 1);
    assert_eq!(Board(0xfffff).lines_cleared(), 2);
    assert_eq!(Board(0x3fff_ffff).lines_cleared(), 3);
    assert_eq!(Board(BOARD_MASK).lines_cleared(), 3);
    // row 1 full but row 0 not: nothing counts
    assert_eq!(Board(0xffc00).lines_cleared(), 0);
}

#[test]
fn piece_placed_counts_four_cells_per_piece() {
    assert_eq!(Board(0xff).piece_placed(), 2);
    assert_eq!(Board(BOARD_MASK).piece_placed(), 10);
    // cells above the four rows do not count
    assert_eq!(Board(0xf | (0xf << 40)).piece_placed(), 1);
}

#[test]
fn transitions_of_empty_and_full_boards() {
    assert_eq!(Board(0).row_transition(), 10);
    assert_eq!(Board(BOARD_MASK).row_transition(), 0);
    assert_eq!(Board(0).column_transition(), 8);
    assert_eq!(Board(BOARD_MASK).column_transition(), 0);
    // a single cell at the bottom left: row 0 differs from the floor in 9
    // cells, row 1 differs from row 0 in one cell
    assert_eq!(Board(1).row_transition(), 10);
    // column 0 differs from the wall in 3 cells, column 1 from column 0 in 1,
    // column 9 from the right wall in 4
    assert_eq!(Board(1).column_transition(), 8);
}

#[test]
fn evaluate_weighs_pieces_lines_and_transitions() {
    assert_eq!(Board(0).evaluate(), -420);
    assert_eq!(Board(BOARD_MASK).evaluate(), 23);
}

#[test]
fn add_lines_raises_the_board() {
    assert_eq!(Board(0).add_lines(0), Board(0));
    assert_eq!(Board(0).add_lines(2), Board(0xfffff));
    assert_eq!(Board(1).add_lines(1), Board(0x7ff));
    assert_eq!(Board(0x3f).add_lines(3), Board((0x3f << 30) | 0x3fff_ffff));
}

#[test]
fn isolated_column_is_found() {
    assert!(!Board(0).has_isolated_cell());
    // column 5: empty in row 0 between filled neighbours, filled above
    let b = 0x3df | (1 << 15) | (1 << 25) | (1 << 35);
    assert!(Board(b).has_isolated_cell());
    // column 5 with an empty cell whose neighbours are empty
    assert!(!Board(0x3df | (1 << 15)).has_isolated_cell());
}

#[test]
fn imbalanced_split_is_found() {
    let col1: u64 = 0b0000000010_0000000010_0000000010_0000000010;
    assert!(!Board(col1).has_imbalanced_split());
    assert!(Board(col1 | 1).has_imbalanced_split());
    assert!(!Board(0).has_imbalanced_split());
}

#[test]
fn pcable_boards() {
    assert!(Board(0).is_pcable());
    assert!(Board(BOARD_MASK).is_pcable());
    assert!(!Board(1 << 40).is_pcable());
    let col1: u64 = 0b0000000010_0000000010_0000000010_0000000010;
    assert!(!Board(col1 | 1).is_pcable());
}

#[test]
fn piece_spawns_at_row_four() {
    let p = Piece::new(Shape::T);
    assert_eq!(p, Piece { shape: Shape::T, col: 0, row: 4, rotation: Rotation::Zero });
    assert_eq!(p.as_bits(), 0b10_0000000111 << 40);
}

#[test]
fn pack_puts_rotation_shape_col_row_in_nibbles() {
    let p = Piece { shape: Shape::T, col: 3, row: 2, rotation: Rotation::Clockwise };
    assert_eq!(p.pack(), 0x1532);
}

#[test]
fn moves_on_an_empty_board() {
    let p = Piece::new(Shape::O);
    let b = Board(0);
    assert_eq!(p.left(b), p);
    assert_eq!(p.right(b).col, 1);
    assert_eq!(p.down(b).row, 3);
    let bottom = Piece { shape: Shape::O, col: 0, row: 0, rotation: Rotation::Zero };
    assert_eq!(bottom.down(b), bottom);
    let right = Piece { shape: Shape::O, col: 8, row: 0, rotation: Rotation::Zero };
    assert_eq!(right.right(b), right);
}

#[test]
fn moves_are_blocked_by_cells() {
    let b = Board(1 << 2);
    let p = Piece { shape: Shape::O, col: 0, row: 0, rotation: Rotation::Zero };
    assert_eq!(p.right(b), p);
    let q = Piece { shape: Shape::O, col: 2, row: 1, rotation: Rotation::Zero };
    assert_eq!(q.down(b), q);
}

#[test]
fn can_place_needs_support() {
    let b = Board(0);
    let bottom = Piece { shape: Shape::O, col: 0, row: 0, rotation: Rotation::Zero };
    assert!(bottom.can_place(b));
    let floating = Piece { shape: Shape::O, col: 0, row: 1, rotation: Rotation::Zero };
    assert!(!floating.can_place(b));
    assert!(!Piece::new(Shape::O).can_place(b));
}

#[test]
fn place_fills_cells() {
    let p = Piece { shape: Shape::O, col: 0, row: 0, rotation: Rotation::Zero };
    assert_eq!(p.place(Board(0)), Board(0xc03));
}

#[test]
fn place_sinks_full_rows() {
    // row 0 holds columns 2..9; the O piece completes it
    let p = Piece { shape: Shape::O, col: 0, row: 0, rotation: Rotation::Zero };
    assert_eq!(p.place(Board(0x3fc)), Board(0xfff));
    // a row filled above an open one sinks below it
    let q = Piece { shape: Shape::I, col: 6, row: 1, rotation: Rotation::Zero };
    let b = Board((0x3f << 10) | 0x3c1);
    assert!(q.can_place(b));
    assert_eq!(q.place(b), Board(0x3ff | (0x3c1 << 10)));
}

#[test]
fn turning_on_an_empty_board() {
    let b = Board(0);
    let p = Piece { shape: Shape::T, col: 3, row: 1, rotation: Rotation::Zero };
    let q = p.cw(b);
    assert_eq!(q.rotation, Rotation::Clockwise);
    assert_eq!((q.col, q.row), (4, 0));
    let r = p.ccw(b);
    assert_eq!(r.rotation, Rotation::ConterClockwise);
    assert_eq!((r.col, r.row), (3, 0));
    let o = Piece::new(Shape::O);
    assert_eq!(o.cw(b).col, 0);
    assert_eq!(o.cw(b).rotation, Rotation::Clockwise);
}

#[test]
fn rotation_states_cycle() {
    assert_eq!(Rotation::Zero.cw(), Rotation::Clockwise);
    assert_eq!(Rotation::ConterClockwise.cw(), Rotation::Zero);
    assert_eq!(Rotation::Zero.ccw(), Rotation::ConterClockwise);
    for r in [Rotation::Zero, Rotation::Clockwise, Rotation::Half, Rotation::ConterClockwise] {
        assert_eq!(r.cw().ccw(), r);
        assert_eq!(r.cw().cw().cw().cw(), r);
    }
}

#[test]
fn shape_names_and_game_codes() {
    assert_eq!(Shape::T.name(), 'T');
    assert_eq!(Shape::from_ppt(0), Shape::S);
    assert_eq!(Shape::from_ppt(5), Shape::O);
    assert_eq!(Shape::from_ppt(6), Shape::I);
}

#[test]
fn queue_packs_first_piece_lowest() {
    let q = PieceQueue::new(vec![Shape::J, Shape::L, Shape::Z]);
    assert_eq!(q.0, 1 | (2 << 3) | (6 << 6));
    assert_eq!(q.now(), Shape::J);
    assert_eq!(q.go().now(), Shape::L);
    assert_eq!(q.go().go().now(), Shape::Z);
    assert!(q.go().go().go().is_empty());
    assert!(PieceQueue::new(vec![]).is_empty());
    // a queue of I pieces packs to zero
    assert!(PieceQueue::new(vec![Shape::I, Shape::I]).is_empty());
}

#[test]
fn overlapping_solutions_fail_the_check() {
    let o = Piece { shape: Shape::O, col: 0, row: 0, rotation: Rotation::Zero };
    assert!(Board(1).solution_checkable(&vec![o]));
    assert_eq!(Board(1).soln_can_pc(&vec![o]), None);
    // the first I fills the board, the second lies over its cells
    let top = Piece { shape: Shape::I, col: 0, row: 3, rotation: Rotation::Zero };
    let board = Board(0xFC3FFFFFFF);
    assert!(board.solution_checkable(&vec![top, top]));
    assert_eq!(board.soln_can_pc(&vec![top, top]), None);
    assert_eq!(board.soln_can_pc(&vec![top]), Some(0));
}

#[test]
fn offsets_outside_the_word_cannot_be_checked() {
    let high = Piece { shape: Shape::I, col: 0, row: 7, rotation: Rotation::Zero };
    assert!(!Board(0).solution_checkable(&vec![high]));
    assert!(Board(0).solution_checkable(&vec![]));
}

#[test]
fn packs_of_different_pieces_differ() {
    let a = Piece { shape: Shape::L, col: 2, row: 1, rotation: Rotation::Half };
    let b = Piece { shape: Shape::L, col: 2, row: 1, rotation: Rotation::ConterClockwise };
    let c = Piece { shape: Shape::J, col: 2, row: 1, rotation: Rotation::Half };
    assert_ne!(a.pack(), b.pack());
    assert_ne!(a.pack(), c.pack());
    assert!(a.pack() < 0x4000);
}

#[test]
fn moves_keep_pieces_in_bounds() {
    let b = Board(0);
    let mut p = Piece::new(Shape::I);
    for _ in 0..10 {
        p = p.right(b);
        assert!(p.in_bounds());
    }
    assert_eq!(p.col, 6);
    p = p.cw(b);
    assert!(p.in_bounds());
    p = p.ccw(b);
    assert!(p.in_bounds());
}

#[test]
fn offsets_outside_the_word_are_undefined() {
    let p = Piece { shape: Shape::T, col: 9, row: 6, rotation: Rotation::Zero };
    assert!(!p.offset_defined());
    assert!(Piece::new(Shape::T).offset_defined());
}

#[test]
fn all_game_codes_decode() {
    let shapes: Vec<Shape> = (0..7).map(Shape::from_ppt).collect();
    assert_eq!(shapes, vec![Shape::S, Shape::Z, Shape::J, Shape::L, Shape::T, Shape::O, Shape::I]);
}

#[test]
fn turning_back_undoes_a_turn() {
    let p = Piece { shape: Shape::T, col: 0, row: 4, rotation: Rotation::Zero };
    let q = p.cw(Board(0));
    assert_eq!(q, Piece { shape: Shape::T, col: 1, row: 3, rotation: Rotation::Clockwise });
    assert_eq!(q.ccw(Board(0)), p);
}

#[test]
fn pruned_boards_stay_pruned_after_a_lock() {
    let o = Piece { shape: Shape::O, col: 5, row: 0, rotation: Rotation::Zero };
    // column 1 filled in every row, plus one cell left of it: five cells
    // left of the split, which no piece can change
    let split = Board(0b11 | (0b10 << 10) | (0b10 << 20) | (0b10 << 30));
    assert!(split.has_imbalanced_split());
    assert!(o.can_place(split));
    assert!(o.place(split).has_imbalanced_split());
    // column 0 walled in by column 1, with its top cell filled
    let isolated = Board(0b10 | (0b10 << 10) | (0b10 << 20) | (0b11 << 30));
    assert!(isolated.has_isolated_cell());
    assert!(o.can_place(isolated));
    assert!(o.place(isolated).has_isolated_cell());
}

#[test]
fn imbalance_survives_a_lock_with_cells_above_the_rows() {
    let o = Piece { shape: Shape::O, col: 5, row: 0, rotation: Rotation::Zero };
    let split = Board(0b11 | (0b10 << 10) | (0b10 << 20) | (0b10 << 30) | (1 << 45));
    assert!(split.has_imbalanced_split());
    assert!(o.can_place(split));
    assert!(o.place(split).has_imbalanced_split());
}

#[test]
fn packs_differ_for_every_column_up_to_nine() {
    let mut seen: Vec<u16> = Vec::new();
    for col in 0..10 {
        for row in 0..6 {
            let p = Piece { shape: Shape::O, col, row, rotation: Rotation::Half };
            assert!(p.pack() < 0x4000);
            assert!(!seen.contains(&p.pack()));
            seen.push(p.pack());
        }
    }
}
