//! The Forsyth-Edwards Notation (FEN) grammar, as a function on bytes.
use vstd::prelude::*;

use crate::colour::Colour;
use crate::piece::Piece;
use crate::square::{sq_at, sq_file, sq_rank};

verus! {

/// The piece and colour a FEN letter stands for: upper case is white, lower case black.
pub open spec fn piece_of_char(c: u8) -> Option<(Piece, Colour)> {
    let colour = if 65u8 <= c <= 90u8 {
        Colour::White
    } else {
        Colour::Black
    };
    let lower = if 65u8 <= c <= 90u8 {
        (c + 32) as u8
    } else {
        c
    };
    if lower == 107u8 {
        Some((Piece::King, colour))
    } else if lower == 113u8 {
        Some((Piece::Queen, colour))
    } else if lower == 114u8 {
        Some((Piece::Rook, colour))
    } else if lower == 98u8 {
        Some((Piece::Bishop, colour))
    } else if lower == 110u8 {
        Some((Piece::Knight, colour))
    } else if lower == 112u8 {
        Some((Piece::Pawn, colour))
    } else {
        None
    }
}

/// What square `s` holds in a map of squares.
pub open spec fn square_at(squares: Map<int, (Piece, Colour)>, s: int) -> Option<(Piece, Colour)> {
    if squares.dom().contains(s) {
        Some(squares[s])
    } else {
        None
    }
}

/// The order in which the placement field visits squares: rank 8 to rank 1, file a to h.
pub open spec fn parse_key(s: int) -> int {
    8 * (7 - sq_rank(s)) + sq_file(s)
}

/// How reading the placement field ends.
pub enum Placement {
    /// The text ends before the field does.
    Overrun,
    /// A character that is neither a digit `1`-`8` nor a piece letter.
    BadPiece,
    /// A seventeenth piece of one colour.
    TooMany,
    /// The field was read: `end` is the index of the byte after it, `squares` what it places.
    Done { end: int, squares: Map<int, (Piece, Colour)> },
}

/// Read the placement field from byte `idx`, standing at `rank` and `file` with `white` and
/// `black` pieces placed so far and `acc` the squares filled so far. Each rank ends once its
/// files are used up; the byte after it (the `/` between ranks) is skipped unread.
pub open spec fn placement(
    fen: Seq<u8>,
    idx: int,
    rank: int,
    file: int,
    white: nat,
    black: nat,
    acc: Map<int, (Piece, Colour)>,
) -> Placement
    decreases rank + 1, 20 - file,
{
    if idx < 0 || idx >= fen.len() || rank < 0 || file < 0 {
        Placement::Overrun
    } else if file > 7 {
        if rank > 0 {
            placement(fen, idx + 1, rank - 1, 0, white, black, acc)
        } else {
            Placement::Done { end: idx, squares: acc }
        }
    } else {
        let c = fen[idx];
        if 49u8 <= c <= 56u8 {
            placement(fen, idx + 1, rank, file + (c - 48u8), white, black, acc)
        } else {
            match piece_of_char(c) {
                None => Placement::BadPiece,
                Some(pc) => {
                    if (pc.1 == Colour::White && white >= 16) || (pc.1 == Colour::Black && black
                        >= 16) {
                        Placement::TooMany
                    } else {
                        placement(
                            fen,
                            idx + 1,
                            rank,
                            file + 1,
                            if pc.1 == Colour::White {
                                white + 1
                            } else {
                                white
                            },
                            if pc.1 == Colour::Black {
                                black + 1
                            } else {
                                black
                            },
                            acc.insert(sq_at(rank, file), pc),
                        )
                    }
                },
            }
        }
    }
}

/// The castling field, starting at byte `idx`: the index after it and the rights it grants,
/// or `None` where the text ends too early. The letters `K`, `Q`, `k`, `q` are taken in that
/// order; anything else ends the field.
pub open spec fn castling_field(fen: Seq<u8>, idx: int) -> Option<(int, (bool, bool, bool, bool))> {
    if idx < 0 || idx >= fen.len() {
        None
    } else if fen[idx] == 45u8 {
        Some((idx + 1, (false, false, false, false)))
    } else {
        let wk = fen[idx] == 75u8;
        let i1 = if wk {
            idx + 1
        } else {
            idx
        };
        if i1 >= fen.len() {
            None
        } else {
            let wq = fen[i1] == 81u8;
            let i2 = if wq {
                i1 + 1
            } else {
                i1
            };
            if i2 >= fen.len() {
                None
            } else {
                let bk = fen[i2] == 107u8;
                let i3 = if bk {
                    i2 + 1
                } else {
                    i2
                };
                if i3 >= fen.len() {
                    None
                } else {
                    let bq = fen[i3] == 113u8;
                    let i4 = if bq {
                        i3 + 1
                    } else {
                        i3
                    };
                    Some((i4, (wk, wq, bk, bq)))
                }
            }
        }
    }
}

/// The en-passant field at byte `idx`: `Some(None)` for `-`, `Some(Some(square))` for a square
/// in algebraic notation, `None` where the text ends early or the square is malformed.
pub open spec fn ep_field(fen: Seq<u8>, idx: int) -> Option<Option<int>> {
    if idx < 0 || idx >= fen.len() {
        None
    } else if fen[idx] == 45u8 {
        Some(None)
    } else if !(97u8 <= fen[idx] <= 104u8) || idx + 1 >= fen.len() || !(49u8 <= fen[idx + 1]
        <= 56u8) {
        None
    } else {
        Some(Some(sq_at(fen[idx + 1] - 49u8, fen[idx] - 97u8)))
    }
}

/// What reading a whole FEN record gives.
pub enum FenOutcome {
    /// The record cannot be read: the text ends too early or the en-passant square is malformed.
    Unreadable,
    /// The record is refused: a bad piece letter, a seventeenth piece of one colour, or a side
    /// to move other than `w` or `b`.
    Refused,
    /// The record was read.
    Parsed {
        squares: Map<int, (Piece, Colour)>,
        side: Colour,
        castle: (bool, bool, bool, bool),
        ep: Option<int>,
    },
}

/// Read a FEN record: placement, side to move, castling rights and en-passant square, each
/// field separated from the next by one byte.
pub open spec fn read_fen(fen: Seq<u8>) -> FenOutcome {
    match placement(fen, 0, 7, 0, 0, 0, Map::empty()) {
        Placement::Overrun => FenOutcome::Unreadable,
        Placement::BadPiece => FenOutcome::Refused,
        Placement::TooMany => FenOutcome::Refused,
        Placement::Done { end, squares } => {
            let s = end + 1;
            if s >= fen.len() {
                FenOutcome::Unreadable
            } else if fen[s] != 119u8 && fen[s] != 98u8 {
                FenOutcome::Refused
            } else {
                let side = if fen[s] == 119u8 {
                    Colour::White
                } else {
                    Colour::Black
                };
                match castling_field(fen, s + 2) {
                    None => FenOutcome::Unreadable,
                    Some((after, castle)) => match ep_field(fen, after + 1) {
                        None => FenOutcome::Unreadable,
                        Some(ep) => FenOutcome::Parsed { squares, side, castle, ep },
                    },
                }
            }
        },
    }
}

} // verus!
