//! The core of a chess engine: a position on bitboards with make and unmake, Zobrist hashing and
//! repetition counts, a static evaluation, a move generator, and a principal-variation search
//! with quiescence and a transposition table.

use vstd::prelude::*;

pub mod bits;
pub mod val;
pub mod hashkeys;
pub mod bitmaps;
pub mod mgen;
pub mod eval;
pub mod game;
pub mod search;
pub mod fen;

pub use fen::{FenField, FenReason, ParseError};
pub use game::{BType, Game, GameError, Position, Progress, TTable, Undo};
pub use hashkeys::board2hash;
pub use mgen::{Castling, Move};
pub use val::{Piece, BLACK, WHITE};

verus! {

/// Score that stands for a forced mate; every search score lies within `-INFINITE..=INFINITE`.
pub const INFINITE: i16 = 10000;

} // verus!
