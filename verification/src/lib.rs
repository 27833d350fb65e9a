//! Move generation and rules for the game of Go, with verified contracts.

pub mod pieces;
pub mod rules;
pub mod sgf;
pub mod goban;
