//! A solver for a calendar tiling puzzle: a 7x7 board with six permanently
//! blocked cells, one cell marking a month and one marking a day, must be
//! tiled exactly by eight fixed polyomino pieces, each used once in any of
//! its rotated or mirrored orientations.
//!
//! The crate is organised leaves-first: `grid` models the 4x4 shape grids
//! and their geometric transforms, `counting` proves facts about
//! occupied-cell counts, `board` holds the 7x7 board with placement and
//! removal, `pieces` generates deduplicated orientations and the piece
//! catalog, and `solver` runs the backtracking search.

pub mod grid;
pub mod counting;
pub mod board;
pub mod pieces;
pub mod solver;

pub use board::Board;
pub use board::PuzzleError;
pub use grid::Layout;
pub use pieces::Piece;
pub use pieces::all_pieces;
pub use solver::debug_print;
pub use solver::recurse;
pub use solver::solve;
