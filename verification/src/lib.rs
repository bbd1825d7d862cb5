//! A perfect-clear finder for a four-row Tetris field.
//!
//! The field is a bit board of four rows of ten cells; pieces move, rotate
//! and lock by the usual rules, and a best-first search looks for a sequence
//! of placements that clears the whole field.

pub mod bits;
pub mod game;
pub mod board;
pub mod piece;
pub mod placer;
pub mod prune;
pub mod queue;
pub mod render;
pub mod search;
pub mod shape;
pub mod solution;
pub mod stage;
