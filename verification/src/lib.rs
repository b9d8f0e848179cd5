//! A chess engine library: bitboard board representation, legal move
//! generation, Zobrist hashing, a transposition table, a hand-crafted
//! evaluation and an alpha-beta search.

pub mod types;
pub mod util;
pub mod board;
pub mod moves_generation;
pub mod transpositions;
pub mod search;
pub mod uci;
