//! Decision core of a Tetris-playing bot.
//!
//! The library models the playfield as a ten-column bitboard, enumerates the
//! reachable placements of a piece, applies placements to a game state with
//! line-clear, back-to-back, combo and perfect-clear accounting, and maintains
//! a layered search graph over future game states with weighted-random
//! selection, lazy expansion and best-first backpropagation.

pub mod board;
pub mod bot;
pub mod data;
pub mod dag;
pub mod eval;
pub mod movegen;
pub mod rng;
