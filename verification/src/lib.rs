//! Hashton Tablut engine: bitboard rules, evaluation and search.
pub mod bitops;
pub mod board;
pub mod zobrist;
pub mod text;
pub mod laws;
pub mod weights;
pub mod eval;
pub mod abort;
pub mod search;
pub mod client;
pub mod stats;
pub mod ui;
pub mod packed;
pub mod symmetry;
pub mod game;


