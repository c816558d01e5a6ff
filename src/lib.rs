//! Core mechanics of a 4x4 sliding-tile merge puzzle: compacting and merging
//! rows, shifting a board in four directions, and placing random tiles.

pub mod board;
pub mod grid;
mod random;
pub mod render;
pub mod row;
pub mod style;

pub use board::{Board, BoardError};
pub use grid::transpose;
pub use row::{push_zeros, score_row};
pub use render::cell_text;
pub use style::{tile_style, TileStyle};
