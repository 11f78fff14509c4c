//! The board and the search strategies that fill it.

pub mod algorithms;
pub mod board;
pub mod notation;
pub mod residual;
