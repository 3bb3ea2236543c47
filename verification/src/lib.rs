//! Logical core of a memory-matching tile game.
//!
//! The board is a fixed-length sequence of tiles, each carrying a face value
//! and two flags (face-up, solved). The `board` module owns that sequence and
//! exposes snapshot reads and validated writes; the `game` module holds the
//! controller rules: shuffle-and-clear reset, pair matching, and win
//! detection.

pub mod board;
pub mod game;
