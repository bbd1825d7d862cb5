use pc_looper::board::{Board, BOARD_MASK};
use pc_looper::piece::Piece;
use pc_looper::placer::PiecePlacer;
use pc_looper::search::search_pc;
use pc_looper::shape::{Rotation, Shape};

#[test]
fn placer_returns_each_placement_once() {
    let mut placer = PiecePlacer::new(Board(0), Shape::O);
    let mut seen: Vec<u64> = Vec::new();
    while let Some((p, b)) = placer.next() {
        assert!(p.can_place(Board(0)));
        assert_eq!(p.place(Board(0)), b);
        assert!(!seen.contains(&p.as_bits()));
        seen.push(p.as_bits());
    }
    // an O piece rests on the floor in any of the nine columns
    assert_eq!(seen.len(), 9);
}

#[test]
fn placer_on_a_full_field_finds_nothing() {
    let mut placer = PiecePlacer::new(Board(BOARD_MASK), Shape::T);
    assert!(placer.next().is_none());
}

#[test]
fn one_line_clear_with_the_piece_in_hand() {
    // six cells in the bottom row: raised by three full rows, an I piece
    // completes the top row
    let board = Board(0x3f);
    let (sol, lines) = search_pc(board, Shape::I, vec![], None);
    assert_eq!(lines, 3);
    assert_eq!(sol.len(), 1);
    assert_eq!(sol[0].as_bits(), 0b1111 << 36);
    assert_eq!(board.soln_can_pc(&sol), Some(3));
}

#[test]
fn one_line_clear_with_the_next_piece() {
    let board = Board(0x3f);
    let (sol, lines) = search_pc(board, Shape::O, vec![Shape::I, Shape::T], None);
    assert_eq!(lines, 3);
    assert_eq!(sol.len(), 1);
    assert_eq!(sol[0].shape, Shape::I);
    assert_eq!(board.soln_can_pc(&sol), Some(3));
}

#[test]
fn one_line_clear_with_the_held_piece() {
    let board = Board(0x3f);
    let (sol, lines) = search_pc(board, Shape::O, vec![], Some(Shape::I));
    assert_eq!(lines, 3);
    assert_eq!(sol.len(), 1);
    assert_eq!(sol[0].shape, Shape::I);
}

#[test]
fn odd_cell_counts_have_no_solution() {
    assert_eq!(search_pc(Board(1), Shape::I, vec![Shape::O], None), (vec![], 0));
    assert_eq!(search_pc(Board(0b111), Shape::I, vec![Shape::O], None), (vec![], 0));
}

#[test]
fn a_queue_of_i_pieces_reads_as_empty() {
    // I packs to 0, so a queue holding only I pieces counts as empty and
    // the search cannot use them
    let board = Board(0x3f);
    assert_eq!(search_pc(board, Shape::O, vec![Shape::I], None), (vec![], 0));
}

#[test]
fn two_line_clear_with_two_o_pieces() {
    let board = Board(0x3f | (0x3f << 10));
    let (sol, lines) = search_pc(board, Shape::O, vec![Shape::O, Shape::T], None);
    assert_eq!(lines, 2);
    assert_eq!(sol.len(), 2);
    assert_eq!(sol[0].shape, Shape::O);
    assert_eq!(sol[1].shape, Shape::O);
    assert_eq!(board.soln_can_pc(&sol), Some(2));
}

#[test]
fn search_from_an_empty_board_is_consistent() {
    let board = Board(0);
    let queue = vec![Shape::O, Shape::L, Shape::J, Shape::S, Shape::Z, Shape::T, Shape::I];
    let (sol, lines) = search_pc(board, Shape::I, queue, None);
    if sol.is_empty() {
        assert_eq!(lines, 0);
    } else {
        assert!(lines == 2 || lines == 0);
        assert_eq!(board.soln_can_pc(&sol), Some(lines));
    }
}

#[test]
fn soln_can_pc_rejects_a_wrong_solution() {
    let board = Board(0x3f);
    let bad = vec![Piece { shape: Shape::O, col: 6, row: 3, rotation: Rotation::Zero }];
    assert!(board.solution_checkable(&bad));
    assert_eq!(board.soln_can_pc(&bad), None);
    assert_eq!(board.soln_can_pc(&vec![]), None);
}

#[test]
fn placer_counts_on_an_empty_board() {
    let expected = [
        (Shape::I, 17),
        (Shape::J, 34),
        (Shape::L, 34),
        (Shape::O, 9),
        (Shape::S, 17),
        (Shape::T, 34),
        (Shape::Z, 17),
    ];
    for (shape, count) in expected {
        let mut placer = PiecePlacer::new(Board(0), shape);
        let mut n = 0;
        while let Some((p, _)) = placer.next() {
            assert_eq!(p.shape, shape);
            n += 1;
        }
        assert_eq!(n, count);
    }
}

#[test]
fn placer_finds_a_placement_reached_only_by_turning() {
    // a T slot under an overhang: dropping the T straight down stops on the
    // overhang, turning it in fills the slot and clears two rows
    let board = Board(0x8f1fef);
    let slot = (1u64 << 4) | (0b111 << 13);
    let mut placer = PiecePlacer::new(board, Shape::T);
    let mut found = None;
    while let Some((p, b)) = placer.next() {
        if p.as_bits() == slot {
            found = Some(b);
        }
    }
    assert_eq!(found, Some(Board(0x8fffff)));
}

#[test]
fn two_line_clear_holding_the_piece_in_hand() {
    // the T in hand cannot help: the next O is played and the T held, then
    // the second O completes the clear
    let board = Board(0x3f | (0x3f << 10));
    let (sol, lines) = search_pc(board, Shape::T, vec![Shape::O, Shape::O], None);
    assert_eq!(lines, 2);
    assert_eq!(sol.len(), 2);
    assert_eq!(sol[0].shape, Shape::O);
    assert_eq!(sol[1].shape, Shape::O);
    assert_eq!(board.soln_can_pc(&sol), Some(2));
}

#[test]
fn held_piece_clears_with_a_spare_piece_in_hand() {
    // rows 0-2 full, row 3 filled in columns 4-9: the O fits nowhere, the
    // held I fills the rest of row 3; raised by two rows the board would
    // spill over the top, so the clear is found without raising it
    let board = Board(0xFC3FFFFFFF);
    let (sol, lines) = search_pc(board, Shape::O, vec![], Some(Shape::I));
    assert_eq!(lines, 0);
    assert_eq!(sol.len(), 1);
    assert_eq!(sol[0].shape, Shape::I);
    assert_eq!(sol[0].row, 3);
    assert_eq!(sol[0].col, 0);
    assert_eq!(sol[0].as_bits(), 0b1111u64 << 30);
}

#[test]
fn an_exhausted_placer_stays_exhausted() {
    let mut placer = PiecePlacer::new(Board(0), Shape::O);
    while placer.next().is_some() {}
    assert!(placer.next().is_none());
    assert!(placer.next().is_none());
}
