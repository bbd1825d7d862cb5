# pc_looper

A perfect-clear finder for the four bottom rows of a Tetris field, with its
rules and search proved in Verus, and a small program that watches a running
game of Puyo Puyo Tetris and draws the solution to follow.

## Layout

- `src/` — the verified library.
  - `shape.rs`: the seven shapes and the four rotation states.
  - `board.rs`: the 40-cell bit board, its rows, line counts and the search's
    score; `add_lines` raises a board over full rows.
  - `piece.rs`: piece cells, moves, turns with wall kicks, locking with line
    clears.
  - `prune.rs`: the tests that rule a board out of reaching a perfect clear.
  - `queue.rs`: the queue of upcoming shapes packed three bits per shape.
  - `placer.rs`: the walk over every distinct placement of a piece.
  - `stage.rs`, `search.rs`: search states, their order, and the best-first
    search.
  - `solution.rs`: checking that a list of placements still clears the board.
  - `render.rs`: the cell letters a solution is drawn with.
  - `game.rs`: turning game readings into search inputs, and what to show.
  - `bits.rs`: one-bit counting and the small bit facts the proofs share.
- `tests/` — tests of the library on concrete values.
- `app/` — the program: reading the game's memory (Windows only), the event
  loop, and printing in colour.

## What is proved

Among others: moves keep a piece in bounds and off filled cells, and a turn
back undoes a turn that took its first kick; locking a piece adds its four
cells and sinks full rows without losing any; the placer returns each
placement once, every placement it returns is reached by a walk of moves
from the spawn position, and when it is done it has returned every such
placement and stays done; locking a piece keeps an imbalanced split and an
isolated column, so the pruning tests never lose a clear; and the search
finds a solution exactly when some plan of plays from the hand clears the
raised board, the solution locking piece by piece, each piece over empty
cells, into a full field, with shapes drawn from the piece in hand, the
queue and the hold in the ways the search plays them.
