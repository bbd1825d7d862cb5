use pc_looper::board::{Board, BOARD_MASK};
use pc_looper::game::{board_from_columns, queue_from_ppt, Planner, Watcher};
use pc_looper::piece::Piece;
use pc_looper::render::render_cells;
use pc_looper::shape::{Rotation, Shape};

fn empty_columns() -> Vec<Vec<i32>> {
    vec![vec![-1; 40]; 10]
}

#[test]
fn board_from_columns_reads_cells() {
    let mut columns = empty_columns();
    assert_eq!(board_from_columns(&columns), Board(0));
    columns[0][0] = 3;
    columns[9][3] = 0;
    columns[4][1] = 6;
    // rows above the fourth are not read
    columns[2][7] = 1;
    let b = board_from_columns(&columns);
    assert_eq!(b, Board(1 | (1 << 39) | (1 << 14)));
}

#[test]
fn queue_from_ppt_decodes_next_then_bag() {
    let next = vec![0, 1, 2, 3, 4];
    let bag = vec![5, 6, 0, 1, 2, 3, 4, 5, 6, 0, 1, 2, 3, 4];
    let q = queue_from_ppt(&next, &bag, 2);
    assert_eq!(
        q,
        vec![
            Shape::S, Shape::Z, Shape::J, Shape::L, Shape::T,
            Shape::S, Shape::Z, Shape::J, Shape::L, Shape::T, Shape::O, Shape::I,
        ]
    );
}

#[test]
fn watcher_reports_only_changes() {
    let mut w = Watcher::new();
    let q = vec![Shape::T, Shape::O];
    assert!(w.observe(5, Shape::I, &q, None));
    // same board and hold
    assert!(!w.observe(5, Shape::J, &vec![Shape::L], None));
    // same queue and hold
    assert!(!w.observe(6, Shape::J, &q, None));
    // same piece in hand
    assert!(!w.observe(6, Shape::I, &vec![Shape::L], None));
    assert!(w.observe(6, Shape::J, &vec![Shape::L], None));
    assert_eq!(w.prev_board, Some(6));
    assert_eq!(w.prev_piece, Some(Shape::J));
    assert_eq!(w.prev_queue, vec![Shape::L]);
    // a new hold makes the same board new again
    assert!(w.observe(6, Shape::T, &vec![Shape::L], Some(Shape::Z)));
}

#[test]
fn planner_searches_then_follows_its_solution() {
    let mut planner = Planner::new();
    let board = Board(0x3f | (0x3f << 10));
    let plan = planner.respond(board, Shape::O, vec![Shape::O, Shape::T], None).unwrap();
    assert_eq!(plan.lines, 2);
    assert_eq!(plan.board, board.add_lines(2));
    assert_eq!(plan.pieces.len(), 2);
    assert_eq!(planner.prev_solution, plan.pieces);

    // the first piece is placed in the game: the rest still clears
    let first = plan.pieces[0];
    let after = first.place(board.add_lines(2));
    // the game shows the board without the raised rows
    let shown = Board(after.0 >> 20);
    let next = planner.respond(shown, Shape::O, vec![Shape::T], None).unwrap();
    assert_eq!(next.pieces, vec![plan.pieces[1]]);
    assert_eq!(planner.prev_solution, vec![plan.pieces[1]]);
}

#[test]
fn planner_on_an_empty_board_searches_anew() {
    let mut planner = Planner::new();
    planner.prev_solution = vec![Piece { shape: Shape::I, col: 6, row: 3, rotation: Rotation::Zero }];
    let plan = planner.respond(Board(0x3f), Shape::I, vec![], None).unwrap();
    assert_eq!(plan.lines, 3);
    assert_eq!(plan.pieces.len(), 1);
}

#[test]
fn render_marks_board_cells() {
    let cells = render_cells(Board(0b101 | (1 << 39)), &vec![]);
    assert_eq!(cells.len(), 50);
    assert_eq!(cells[0], '?');
    assert_eq!(cells[1], '-');
    assert_eq!(cells[2], '?');
    assert_eq!(cells[39], '?');
    assert!(cells[40..].iter().all(|c| *c == '-'));
}

#[test]
fn render_draws_pieces() {
    let pieces = vec![
        Piece { shape: Shape::O, col: 0, row: 0, rotation: Rotation::Zero },
        Piece { shape: Shape::T, col: 3, row: 0, rotation: Rotation::Zero },
    ];
    let cells = render_cells(Board(0), &pieces);
    assert_eq!(&cells[0..10], &['x', 'x', '-', 'T', 'T', 'T', '-', '-', '-', '-']);
    assert_eq!(&cells[10..20], &['x', 'x', '-', '-', 'T', '-', '-', '-', '-', '-']);
}

#[test]
fn render_keeps_a_filled_bottom_row_in_place() {
    // row 0 is full once the I piece is drawn, and stays first in the row order
    let board = Board(0x3f);
    let pieces = vec![
        Piece { shape: Shape::I, col: 6, row: 0, rotation: Rotation::Zero },
        Piece { shape: Shape::O, col: 0, row: 0, rotation: Rotation::Zero },
    ];
    let cells = render_cells(board, &pieces);
    assert_eq!(&cells[0..10], &['O', 'O', '?', '?', '?', '?', 'x', 'x', 'x', 'x']);
    assert_eq!(&cells[10..12], &['O', 'O']);
}

#[test]
fn render_moves_a_filled_row_first() {
    // row 1 is full once the I piece is drawn: it moves first in the row
    // order, so the next piece's bottom row is drawn into it
    let board = Board(0x3f << 10);
    let pieces = vec![
        Piece { shape: Shape::I, col: 6, row: 1, rotation: Rotation::Zero },
        Piece { shape: Shape::O, col: 0, row: 0, rotation: Rotation::Zero },
    ];
    let cells = render_cells(board, &pieces);
    assert_eq!(&cells[16..20], &['x', 'x', 'x', 'x']);
    assert_eq!(&cells[10..12], &['O', 'O']);
    assert_eq!(&cells[0..2], &['O', 'O']);
    assert_eq!(&cells[2..10], &['-', '-', '-', '-', '-', '-', '-', '-']);
}

#[test]
fn full_board_is_pc_after_last_piece() {
    let board = Board(BOARD_MASK & !(0xf << 36));
    let p = Piece { shape: Shape::I, col: 6, row: 3, rotation: Rotation::Zero };
    assert!(p.can_place(board));
    assert!(p.place(board).is_pc());
}

#[test]
fn planner_drops_a_followed_solution_over_filled_cells() {
    // the rest of the followed solution puts an O over filled cells: the
    // planner searches anew
    let mut planner = Planner::new();
    planner.prev_solution = vec![
        Piece { shape: Shape::I, col: 6, row: 3, rotation: Rotation::Zero },
        Piece { shape: Shape::O, col: 0, row: 0, rotation: Rotation::Zero },
    ];
    let plan = planner.respond(Board(0x3f), Shape::I, vec![], None).unwrap();
    assert_eq!(plan.lines, 3);
    assert_eq!(plan.pieces.len(), 1);
}

#[test]
fn planner_refuses_a_followed_solution_it_cannot_check() {
    let mut planner = Planner::new();
    planner.prev_solution = vec![
        Piece { shape: Shape::I, col: 6, row: 3, rotation: Rotation::Zero },
        Piece { shape: Shape::I, col: 0, row: 7, rotation: Rotation::Zero },
    ];
    assert!(planner.respond(Board(0x3f), Shape::I, vec![], None).is_none());
}
