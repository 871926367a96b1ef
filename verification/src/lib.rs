//! Board representation and move generation for the chess engine Yukari,
//! with the transposition table and search helpers that surround it.
use vstd::prelude::*;

pub mod colour;
pub mod piece;
pub mod square;
pub mod chessmove;
pub mod board;
pub mod tt;
pub mod search;
pub mod aspiration;
pub mod datagen;
pub mod score;
pub mod ttentry;

pub use board::index::PieceIndex;
pub use board::position::Board;
pub use chessmove::{Move, MoveType};
pub use colour::Colour;
pub use piece::Piece;
pub use square::Square;

verus! {

} // verus!
