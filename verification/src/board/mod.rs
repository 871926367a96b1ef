pub mod bitlist;
pub mod index;
pub mod piecemask;
pub mod castling;
pub mod attacks;
pub mod piecelist;
pub mod data;
pub mod fen;
pub mod feature;
pub mod eval;
pub mod movelist;
pub mod pins;
pub mod position;
