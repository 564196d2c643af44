//! A checkers engine on 64-bit bitboards: move generation, position
//! evaluation, an alpha-beta search with a Zobrist-keyed transposition
//! table, and parsing of board and move notation.
//!
//! Squares are numbered 0..64 row by row from the top left corner (A8) to
//! the bottom right corner (H1); square `s` is bit `63 - s` of a bitboard.
#![allow(non_camel_case_types)]

pub mod squares;
pub mod utils;
pub mod generation;
pub mod board;
pub mod movegen;
pub mod notation;
pub mod layout;
pub mod algo;
pub mod transposition;
pub mod minimax;
