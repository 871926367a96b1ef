use vstd::prelude::*;

use crate::chessmove::MoveType;
use crate::colour::Colour;
use crate::square::{File, Rank, Square, sq_at};

verus! {

/// True if bit `i` of the castling byte `a` is set.
pub open spec fn right_bit(a: u8, i: int) -> bool {
    0 <= i < 8 && (a >> (i as u8)) & 1 == 1
}

proof fn lemma_byte_ops(a: u8, i: u8, j: u8)
    by (bit_vector)
    requires
        i < 8,
        j < 8,
    ensures
        ((a | (1u8 << j)) >> i) & 1 == 1 <==> ((a >> i) & 1 == 1 || i == j),
        ((a & !(1u8 << j)) >> i) & 1 == 1 <==> ((a >> i) & 1 == 1 && i != j),
        (a & (1u8 << j) == 0) == ((a >> j) & 1 != 1),
        (0u8 >> i) & 1 != 1,
        ((a & !(3u8 << 0u8)) >> i) & 1 == 1 <==> ((a >> i) & 1 == 1 && i != 0 && i != 1),
        ((a & !(3u8 << 2u8)) >> i) & 1 == 1 <==> ((a >> i) & 1 == 1 && i != 2 && i != 3),
{
}

proof fn lemma_clear_right(a: u8, j: u8)
    requires
        j < 8,
    ensures
        forall|i: int| right_bit(a & !(1u8 << j), i) <==> (right_bit(a, i) && i != j),
{
    assert forall|i: int| right_bit(a & !(1u8 << j), i) <==> (right_bit(a, i) && i != j) by {
        if 0 <= i < 8 {
            lemma_byte_ops(a, i as u8, j);
        }
    }
}

proof fn lemma_clear_pair(a: u8, s: u8)
    requires
        s == 0 || s == 2,
    ensures
        forall|i: int|
            right_bit(a & !(3u8 << s), i) <==> (right_bit(a, i) && i != s && i != s + 1),
{
    assert forall|i: int|
        right_bit(a & !(3u8 << s), i) <==> (right_bit(a, i) && i != s && i != s + 1) by {
        if 0 <= i < 8 {
            lemma_byte_ops(a, i as u8, 0);
            if s == 0 {
                assert(3u8 << s == 3u8 << 0u8);
            } else {
                assert(3u8 << s == 3u8 << 2u8);
            }
        }
    }
}

/// Castling availability and the squares of the castling rooks.
///
/// Right 0 is white kingside, 1 white queenside, 2 black kingside and 3 black queenside.
#[derive(Debug, Clone, Copy)]
pub struct CastlingRights {
    availability: u8,
    castling_files: [Square; 4],
}

impl CastlingRights {
    /// The availability byte.
    pub closed spec fn bits(self) -> u8 {
        self.availability
    }

    /// True if castling right `i` is available.
    pub open spec fn has_right(self, i: int) -> bool {
        right_bit(self.bits(), i)
    }

    /// The square number of the rook for castling right `i`.
    pub closed spec fn rook(self, i: int) -> int {
        self.castling_files@[i].index()
    }

    /// No rights and the standard rook squares (h1, a1, h8, a8).
    pub fn new() -> (r: CastlingRights)
        ensures
            r.bits() == 0,
            forall|i: int| !r.has_right(i),
            r.rook(0) == 7 && r.rook(1) == 0 && r.rook(2) == 63 && r.rook(3) == 56,
    {
        let r = CastlingRights {
            availability: 0,
            castling_files: [
                Square::from_u8_unchecked(7),
                Square::from_u8_unchecked(0),
                Square::from_u8_unchecked(63),
                Square::from_u8_unchecked(56),
            ],
        };
        proof {
            assert forall|i: int| !r.has_right(i) by {
                if 0 <= i < 8 {
                    lemma_byte_ops(0, i as u8, 0);
                }
            }
        }
        r
    }

    /// The kingside right of `colour`: 0 for white, 2 for black.
    pub fn kingside_index(colour: Colour) -> (r: usize)
        ensures
            r == 2 * colour.index(),
    {
        2 * colour.into_usize()
    }

    /// The queenside right of `colour`: 1 for white, 3 for black.
    pub fn queenside_index(colour: Colour) -> (r: usize)
        ensures
            r == 2 * colour.index() + 1,
    {
        (2 * colour.into_usize()) + 1
    }

    /// The first rank from the point of view of `colour`.
    pub fn back_rank(colour: Colour) -> (r: Rank)
        ensures
            r.idx() == (match colour {
                Colour::White => 0int,
                Colour::Black => 7int,
            }),
    {
        match colour {
            Colour::White => Rank::One,
            Colour::Black => Rank::Eight,
        }
    }

    /// The king and rook destinations of a castling move of `colour`: g- and f-file for
    /// kingside, c- and d-file otherwise.
    pub fn castling_destinations(colour: Colour, kind: MoveType) -> (r: (Square, Square))
        ensures
            ({
                let back = if colour == Colour::White {
                    0int
                } else {
                    7int
                };
                if kind == MoveType::KingsideCastle {
                    r.0.index() == sq_at(back, 6) && r.1.index() == sq_at(back, 5)
                } else {
                    r.0.index() == sq_at(back, 2) && r.1.index() == sq_at(back, 3)
                }
            }),
    {
        let back = Self::back_rank(colour);
        if kind == MoveType::KingsideCastle {
            (Square::from_rank_file(back, File::G), Square::from_rank_file(back, File::F))
        } else {
            (Square::from_rank_file(back, File::C), Square::from_rank_file(back, File::D))
        }
    }

    /// The availability byte.
    pub fn availability(self) -> (r: u8)
        ensures
            r == self.bits(),
    {
        self.availability
    }

    /// Grant castling right `index` with its rook on `square`.
    pub fn set(&mut self, index: usize, square: Square)
        requires
            index < 4,
        ensures
            final(self).bits() == old(self).bits() | (1u8 << index as u8),
            forall|i: int| final(self).has_right(i) <==> (old(self).has_right(i) || i == index),
            final(self).rook(index as int) == square.index(),
            forall|i: int| 0 <= i < 4 && i != index ==> final(self).rook(i) == old(self).rook(i),
    {
        let old_bits = self.availability;
        self.availability = self.availability | (1u8 << index as u8);
        self.castling_files[index] = square;
        proof {
            assert forall|i: int| self.has_right(i) <==> (right_bit(old_bits, i) || i == index) by {
                if 0 <= i < 8 {
                    lemma_byte_ops(old_bits, i as u8, index as u8);
                }
            }
        }
    }

    /// The rook square of castling right `index`, if the right is available.
    pub fn rook_square(self, index: usize) -> (r: Option<Square>)
        requires
            index < 4,
        ensures
            r is Some <==> self.has_right(index as int),
            r matches Some(sq) ==> sq.index() == self.rook(index as int),
    {
        proof {
            lemma_byte_ops(self.availability, 0, index as u8);
        }
        if self.availability & (1u8 << index as u8) == 0 {
            None
        } else {
            Some(self.castling_files[index])
        }
    }

    /// Remove both rights of `colour`, whose king has moved.
    pub fn king_moved(&mut self, colour: Colour)
        ensures
            forall|i: int|
                final(self).has_right(i) <==> (old(self).has_right(i) && i != 2 * colour.index()
                    && i != 2 * colour.index() + 1),
            forall|i: int| 0 <= i < 4 ==> final(self).rook(i) == old(self).rook(i),
    {
        let old_bits = self.availability;
        let shift = (2 * colour.into_usize()) as u8;
        assert(shift == 2 * colour.index());
        proof {
            lemma_clear_pair(old_bits, shift);
        }
        self.availability = self.availability & !(0b11u8 << shift);
    }

    /// Remove the rights of `colour` whose rook stands on `square`.
    pub fn update_square(&mut self, square: Square, colour: Colour)
        ensures
            forall|i: int|
                final(self).has_right(i) <==> (old(self).has_right(i) && !((i == 2
                    * colour.index() || i == 2 * colour.index() + 1) && old(self).rook(i)
                    == square.index())),
            forall|i: int| 0 <= i < 4 ==> final(self).rook(i) == old(self).rook(i),
    {
        let k = Self::kingside_index(colour);
        let q = Self::queenside_index(colour);
        let ghost old_bits = self.availability;
        let mut a = self.availability;
        let ghost sqi = square.index();
        let kmatch = self.castling_files[k].into_inner() == square.into_inner();
        if kmatch {
            let kb: u8 = k as u8;
            proof {
                lemma_clear_right(a, kb);
            }
            a = a & !(1u8 << kb);
        }
        assert(forall|i: int|
            right_bit(a, i) <==> (right_bit(old_bits, i) && !(i == k && self.rook(k as int)
                == sqi)));
        let qmatch = self.castling_files[q].into_inner() == square.into_inner();
        let ghost a1 = a;
        assert(qmatch == (self.rook(q as int) == sqi));
        if qmatch {
            let qb: u8 = q as u8;
            proof {
                lemma_clear_right(a, qb);
            }
            a = a & !(1u8 << qb);
        }
        assert(forall|i: int|
            right_bit(a, i) <==> (right_bit(a1, i) && !(i == q && self.rook(q as int) == sqi)));
        self.availability = a;
    }
}

} // verus!
