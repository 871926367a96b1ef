use vstd::prelude::*;

verus! {

/// A chess piece type.
#[derive(Copy, Clone, PartialEq, Eq, Debug, Structural)]
pub enum Piece {
    Pawn,
    Knight,
    Bishop,
    Rook,
    Queen,
    King,
}

impl Piece {
    /// The declaration order of a piece: pawn 0, knight 1, bishop 2, rook 3, queen 4, king 5.
    pub open spec fn ord(self) -> nat {
        match self {
            Piece::Pawn => 0,
            Piece::Knight => 1,
            Piece::Bishop => 2,
            Piece::Rook => 3,
            Piece::Queen => 4,
            Piece::King => 5,
        }
    }

    /// The piece whose declaration order is `n`.
    pub open spec fn from_ord(n: int) -> Piece {
        if n == 0 {
            Piece::Pawn
        } else if n == 1 {
            Piece::Knight
        } else if n == 2 {
            Piece::Bishop
        } else if n == 3 {
            Piece::Rook
        } else if n == 4 {
            Piece::Queen
        } else {
            Piece::King
        }
    }

    /// The value-descending index of a piece: king 0, queen 1, rook 2, bishop 3, knight 4, pawn 5.
    pub open spec fn rank_index(self) -> nat {
        (5 - self.ord()) as nat
    }

    /// True for the pieces that slide along rays: bishops, rooks and queens.
    pub open spec fn is_slider(self) -> bool {
        self == Piece::Bishop || self == Piece::Rook || self == Piece::Queen
    }

    /// The declaration order of this piece (pawn 0 up to king 5).
    pub fn ordinal(self) -> (r: u8)
        ensures
            r == self.ord(),
    {
        match self {
            Piece::Pawn => 0,
            Piece::Knight => 1,
            Piece::Bishop => 2,
            Piece::Rook => 3,
            Piece::Queen => 4,
            Piece::King => 5,
        }
    }

    /// The index of this piece counted from the king down (king 0 up to pawn 5).
    pub fn into_usize(self) -> (r: usize)
        ensures
            r == self.rank_index(),
    {
        match self {
            Piece::King => 0,
            Piece::Queen => 1,
            Piece::Rook => 2,
            Piece::Bishop => 3,
            Piece::Knight => 4,
            Piece::Pawn => 5,
        }
    }

    /// Compare two pieces by declaration order (pawn lowest, king highest).
    pub fn less_than(self, other: Piece) -> (r: bool)
        ensures
            r == (self.ord() < other.ord()),
    {
        self.ordinal() < other.ordinal()
    }

    /// Every piece is recovered from its declaration order.
    pub proof fn lemma_ord_roundtrip(p: Piece)
        ensures
            Piece::from_ord(p.ord() as int) == p,
            p.ord() < 6,
    {
    }
}

} // verus!
