//! The consumer side: what the renderer decides, and how a board is drawn.

pub mod game_updater;
pub mod sudoku_printer;
