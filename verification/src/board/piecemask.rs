use vstd::prelude::*;

use crate::board::bitlist::{Bitlist, bit, colour_bits, lemma_bit_ops};
use crate::board::index::{PieceIndex, colour_of_index};
use crate::colour::Colour;
use crate::piece::Piece;

verus! {

/// The three-bit code of a piece in a piece mask: pawn 1, knight 2, bishop 3, rook 4, queen 5,
/// king 6 (bit 0 from `pbq`, bit 1 from `nbk`, bit 2 from `rqk`).
pub open spec fn piece_code(p: Piece) -> int {
    p.ord() as int + 1
}

/// The piece with three-bit code `c`, if any.
pub open spec fn piece_of_code(c: int) -> Option<Piece> {
    if 1 <= c <= 6 {
        Some(Piece::from_ord(c - 1))
    } else {
        None
    }
}

/// The piece types of the 32 piece slots, held in three bit planes.
#[derive(Clone, Copy)]
pub struct Piecemask {
    pbq: Bitlist,
    nbk: Bitlist,
    rqk: Bitlist,
}

impl Piecemask {
    /// The three-bit code of slot `i`.
    pub closed spec fn code(self, i: int) -> int {
        (if self.pbq.has(i) {
            1int
        } else {
            0int
        }) + (if self.nbk.has(i) {
            2int
        } else {
            0int
        }) + (if self.rqk.has(i) {
            4int
        } else {
            0int
        })
    }

    /// The piece in slot `i`, if any.
    pub open spec fn slot(self, i: int) -> Option<Piece> {
        piece_of_code(self.code(i))
    }

    /// No slot holds the unused code 7.
    pub open spec fn wf(self) -> bool {
        forall|i: int| 0 <= i < 32 ==> self.code(i) != 7
    }

    /// True if slot `i` holds a piece.
    pub open spec fn occupies(self, i: int) -> bool {
        self.slot(i) is Some
    }

    /// Slots outside 0-31 are empty.
    pub proof fn lemma_code_range(self, i: int)
        ensures
            0 <= self.code(i) < 8,
            !(0 <= i < 32) ==> self.code(i) == 0,
    {
    }

    /// Create a new, empty `Piecemask`.
    pub fn new() -> (r: Piecemask)
        ensures
            r.wf(),
            forall|i: int| #[trigger] r.slot(i) is None,
    {
        let r = Piecemask { pbq: Bitlist::new(), nbk: Bitlist::new(), rqk: Bitlist::new() };
        proof {
            assert forall|i: int| #[trigger] r.code(i) == 0 by {
                if 0 <= i < 32 {
                    lemma_bit_ops(0, 0, i as u32);
                }
            }
        }
        r
    }

    /// The slots holding no piece.
    pub fn empty(&self) -> (r: Bitlist)
        ensures
            forall|i: int| 0 <= i < 32 ==> (r.has(i) <==> self.code(i) == 0),
    {
        self.pbq.or(self.nbk).or(self.rqk).invert()
    }

    /// The slots holding a piece.
    pub fn occupied(&self) -> (r: Bitlist)
        ensures
            forall|i: int| r.has(i) <==> self.code(i) != 0,
            self.wf() ==> forall|i: int| 0 <= i < 32 ==> (r.has(i) <==> self.slot(i) is Some),
    {
        let r = self.pbq.or(self.nbk).or(self.rqk);
        proof {
            assert forall|i: int| r.has(i) <==> self.code(i) != 0 by {
                self.lemma_code_range(i);
            }
        }
        r
    }

    /// The slots holding pawns.
    pub fn pawns(&self) -> (r: Bitlist)
        ensures
            forall|i: int| r.has(i) <==> self.slot(i) == Some(Piece::Pawn),
    {
        let r = self.pbq.and(self.nbk.invert()).and(self.rqk.invert());
        proof {
            assert forall|i: int| r.has(i) <==> self.slot(i) == Some(Piece::Pawn) by {
                self.lemma_code_range(i);
            }
        }
        r
    }

    /// The slots holding knights.
    pub fn knights(&self) -> (r: Bitlist)
        ensures
            forall|i: int| r.has(i) <==> self.slot(i) == Some(Piece::Knight),
    {
        let r = self.pbq.invert().and(self.nbk).and(self.rqk.invert());
        proof {
            assert forall|i: int| r.has(i) <==> self.slot(i) == Some(Piece::Knight) by {
                self.lemma_code_range(i);
            }
        }
        r
    }

    /// The slots holding bishops (code 3, or the unused code 7).
    pub fn bishops(&self) -> (r: Bitlist)
        ensures
            forall|i: int| r.has(i) <==> (self.code(i) == 3 || self.code(i) == 7),
            self.wf() ==> forall|i: int| r.has(i) <==> self.slot(i) == Some(Piece::Bishop),
    {
        let r = self.pbq.and(self.nbk);
        proof {
            assert forall|i: int| r.has(i) <==> (self.code(i) == 3 || self.code(i) == 7) by {
                self.lemma_code_range(i);
            }
        }
        r
    }

    /// The slots holding rooks.
    pub fn rooks(&self) -> (r: Bitlist)
        ensures
            forall|i: int| r.has(i) <==> self.slot(i) == Some(Piece::Rook),
    {
        let r = self.pbq.invert().and(self.nbk.invert()).and(self.rqk);
        proof {
            assert forall|i: int| r.has(i) <==> self.slot(i) == Some(Piece::Rook) by {
                self.lemma_code_range(i);
            }
        }
        r
    }

    /// The slots holding queens (code 5, or the unused code 7).
    pub fn queens(&self) -> (r: Bitlist)
        ensures
            forall|i: int| r.has(i) <==> (self.code(i) == 5 || self.code(i) == 7),
            self.wf() ==> forall|i: int| r.has(i) <==> self.slot(i) == Some(Piece::Queen),
    {
        let r = self.pbq.and(self.rqk);
        proof {
            assert forall|i: int| r.has(i) <==> (self.code(i) == 5 || self.code(i) == 7) by {
                self.lemma_code_range(i);
            }
        }
        r
    }

    /// The slots holding kings (code 6, or the unused code 7).
    pub fn kings(&self) -> (r: Bitlist)
        ensures
            forall|i: int| r.has(i) <==> (self.code(i) == 6 || self.code(i) == 7),
            self.wf() ==> forall|i: int| r.has(i) <==> self.slot(i) == Some(Piece::King),
    {
        let r = self.nbk.and(self.rqk);
        proof {
            assert forall|i: int| r.has(i) <==> (self.code(i) == 6 || self.code(i) == 7) by {
                self.lemma_code_range(i);
            }
        }
        r
    }

    /// The occupied white slots.
    pub fn white(&self) -> (r: Bitlist)
        ensures
            forall|i: int| r.has(i) <==> (self.code(i) != 0 && 0 <= i < 16),
    {
        let r = self.occupied().and(Bitlist::white());
        proof {
            assert forall|i: int| r.has(i) <==> (self.code(i) != 0 && 0 <= i < 16) by {
                if 0 <= i < 32 {
                    lemma_bit_ops(0, 0, i as u32);
                }
            }
        }
        r
    }

    /// The occupied black slots.
    pub fn black(&self) -> (r: Bitlist)
        ensures
            forall|i: int| r.has(i) <==> (self.code(i) != 0 && 16 <= i < 32),
    {
        let r = self.occupied().and(Bitlist::black());
        proof {
            assert forall|i: int| r.has(i) <==> (self.code(i) != 0 && 16 <= i < 32) by {
                if 0 <= i < 32 {
                    lemma_bit_ops(0, 0, i as u32);
                }
            }
        }
        r
    }

    /// The occupied slots of `colour`.
    pub fn pieces_of_colour(&self, colour: Colour) -> (r: Bitlist)
        ensures
            forall|i: int|
                r.has(i) <==> (self.code(i) != 0 && 0 <= i < 32 && colour_of_index(i) == colour),
    {
        match colour {
            Colour::White => self.white(),
            Colour::Black => self.black(),
        }
    }

    /// The piece in slot `index`, if any.
    pub fn piece(&self, index: PieceIndex) -> (r: Option<Piece>)
        ensures
            r == self.slot(index.index()),
    {
        let b = Bitlist::from_piece(index);
        let pbq: u8 = if self.pbq.contains(b) {
            1
        } else {
            0
        };
        let nbk: u8 = if self.nbk.contains(b) {
            1
        } else {
            0
        };
        let rqk: u8 = if self.rqk.contains(b) {
            1
        } else {
            0
        };
        proof {
            let i = index.index();
            PieceIndex::lemma_index_range(index);
            lemma_slot_test(self.pbq@, i as u32);
            lemma_slot_test(self.nbk@, i as u32);
            lemma_slot_test(self.rqk@, i as u32);
        }
        let code = 4 * rqk + 2 * nbk + pbq;
        match code {
            1 => Some(Piece::Pawn),
            2 => Some(Piece::Knight),
            3 => Some(Piece::Bishop),
            4 => Some(Piece::Rook),
            5 => Some(Piece::Queen),
            6 => Some(Piece::King),
            _ => None,
        }
    }

    /// Add a piece of `colour` in the lowest empty slot of that colour, and return the slot.
    pub fn add_piece(&mut self, piece: Piece, colour: Colour) -> (r: PieceIndex)
        requires
            old(self).wf(),
            exists|i: int|
                0 <= i < 32 && colour_of_index(i) == colour && #[trigger] old(self).code(i) == 0,
        ensures
            final(self).wf(),
            colour_of_index(r.index()) == colour,
            old(self).code(r.index()) == 0,
            forall|j: int|
                0 <= j < r.index() && colour_of_index(j) == colour ==> #[trigger] old(self).code(j)
                    != 0,
            final(self).slot(r.index()) == Some(piece),
            forall|j: int| j != r.index() ==> #[trigger] final(self).code(j) == old(self).code(j),
    {
        let free = self.empty().and(Bitlist::mask_from_colour(colour));
        proof {
            let w = choose|i: int|
                0 <= i < 32 && colour_of_index(i) == colour && #[trigger] old(self).code(i) == 0;
            Bitlist::lemma_colour_bits(colour, w);
            assert(free.has(w));
            Bitlist::lemma_empty(free);
            assert forall|j: int| free.has(j) implies (0 <= j < 32 && colour_of_index(j) == colour
                && self.code(j) == 0) by {
                Bitlist::lemma_colour_bits(colour, j);
            }
        }
        let piece_index = match free.peek() {
            Some(p) => p,
            None => PieceIndex::new_unchecked(0),
        };
        let ghost pi = piece_index.index();
        proof {
            assert forall|j: int|
                0 <= j < pi && colour_of_index(j) == colour implies #[trigger] old(self).code(j)
                != 0 by {
                Bitlist::lemma_colour_bits(colour, j);
                assert(!free.has(j));
            }
        }
        let yes = Bitlist::from_piece(piece_index);
        let no = Bitlist::new();
        let (pbq, nbk, rqk) = match piece {
            Piece::Pawn => (yes, no, no),
            Piece::Knight => (no, yes, no),
            Piece::Bishop => (yes, yes, no),
            Piece::Rook => (no, no, yes),
            Piece::Queen => (yes, no, yes),
            Piece::King => (no, yes, yes),
        };
        proof {
            assert forall|j: int| !no.has(j) by {
                if 0 <= j < 32 {
                    lemma_bit_ops(0, 0, j as u32);
                }
            }
        }
        self.pbq = self.pbq.or(pbq);
        self.nbk = self.nbk.or(nbk);
        self.rqk = self.rqk.or(rqk);
        proof {
            assert forall|j: int| j != pi implies #[trigger] self.code(j) == old(self).code(j) by {}
            assert(self.code(pi) == piece_code(piece));
        }
        piece_index
    }

    /// Remove the piece in slot `piece_index`, which must hold one.
    pub fn remove_piece(&mut self, piece_index: PieceIndex)
        requires
            old(self).code(piece_index.index()) != 0,
        ensures
            old(self).wf() ==> final(self).wf(),
            final(self).code(piece_index.index()) == 0,
            forall|j: int|
                j != piece_index.index() ==> #[trigger] final(self).code(j) == old(self).code(j),
    {
        let keep = Bitlist::from_piece(piece_index).invert();
        self.pbq = self.pbq.and(keep);
        self.nbk = self.nbk.and(keep);
        self.rqk = self.rqk.and(keep);
        proof {
            let pi = piece_index.index();
            assert forall|j: int| j != pi implies #[trigger] self.code(j) == old(self).code(j) by {
                if !(0 <= j < 32) {
                    self.lemma_code_range(j);
                    old(self).lemma_code_range(j);
                }
            }
        }
    }
}

/// The test of one bit against a single-bit mask, for use elsewhere.
pub proof fn lemma_slot_test_pub(x: u32, i: u32)
    requires
        i < 32,
    ensures
        (x & (1u32 << i) != 0) == ((x >> i) & 1 == 1),
{
    lemma_slot_test(x, i);
}

/// The test of one bit against a single-bit mask.
proof fn lemma_slot_test(x: u32, i: u32)
    by (bit_vector)
    requires
        i < 32,
    ensures
        (x & (1u32 << i) != 0) == ((x >> i) & 1 == 1),
{
}

} // verus!
