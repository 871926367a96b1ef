use vstd::prelude::*;

use crate::piece::Piece;
use crate::square::Square;

verus! {

/// The kind of a move, following the four-bit move-flag layout: bit 3 marks captures and
/// bit 2 promotions.
#[derive(Clone, Copy, PartialEq, Eq, Debug, Structural)]
pub enum MoveType {
    Normal,
    DoublePush,
    QueensideCastle,
    KingsideCastle,
    PromotionKnight,
    PromotionBishop,
    PromotionRook,
    PromotionQueen,
    Capture,
    EnPassant,
    Unused1,
    Unused2,
    CapturePromotionKnight,
    CapturePromotionBishop,
    CapturePromotionRook,
    CapturePromotionQueen,
}

/// The move kind with four-bit code `c` (`0 <= c < 16`).
pub open spec fn kind_of_code(c: int) -> MoveType {
    if c == 0 {
        MoveType::Normal
    } else if c == 1 {
        MoveType::DoublePush
    } else if c == 2 {
        MoveType::QueensideCastle
    } else if c == 3 {
        MoveType::KingsideCastle
    } else if c == 4 {
        MoveType::PromotionKnight
    } else if c == 5 {
        MoveType::PromotionBishop
    } else if c == 6 {
        MoveType::PromotionRook
    } else if c == 7 {
        MoveType::PromotionQueen
    } else if c == 8 {
        MoveType::Capture
    } else if c == 9 {
        MoveType::EnPassant
    } else if c == 10 {
        MoveType::Unused1
    } else if c == 11 {
        MoveType::Unused2
    } else if c == 12 {
        MoveType::CapturePromotionKnight
    } else if c == 13 {
        MoveType::CapturePromotionBishop
    } else if c == 14 {
        MoveType::CapturePromotionRook
    } else {
        MoveType::CapturePromotionQueen
    }
}

proof fn lemma_flag_bits(c: u16)
    by (bit_vector)
    requires
        c < 16,
    ensures
        ((c & 0b1000) != 0) == (c >= 8),
        ((c & 0b0100) != 0) == (c % 8 >= 4),
{
}

impl MoveType {
    /// The four-bit code of this move kind.
    pub open spec fn code(self) -> int {
        match self {
            MoveType::Normal => 0,
            MoveType::DoublePush => 1,
            MoveType::QueensideCastle => 2,
            MoveType::KingsideCastle => 3,
            MoveType::PromotionKnight => 4,
            MoveType::PromotionBishop => 5,
            MoveType::PromotionRook => 6,
            MoveType::PromotionQueen => 7,
            MoveType::Capture => 8,
            MoveType::EnPassant => 9,
            MoveType::Unused1 => 10,
            MoveType::Unused2 => 11,
            MoveType::CapturePromotionKnight => 12,
            MoveType::CapturePromotionBishop => 13,
            MoveType::CapturePromotionRook => 14,
            MoveType::CapturePromotionQueen => 15,
        }
    }

    /// True for the kinds that capture (code bit 3 set).
    pub open spec fn captures(self) -> bool {
        self.code() >= 8
    }

    /// True for the kinds that promote (code bit 2 set).
    pub open spec fn promotes(self) -> bool {
        self.code() % 8 >= 4
    }

    /// The piece a kind promotes to.
    pub open spec fn promotion(self) -> Option<Piece> {
        match self {
            MoveType::PromotionKnight | MoveType::CapturePromotionKnight => Some(Piece::Knight),
            MoveType::PromotionBishop | MoveType::CapturePromotionBishop => Some(Piece::Bishop),
            MoveType::PromotionRook | MoveType::CapturePromotionRook => Some(Piece::Rook),
            MoveType::PromotionQueen | MoveType::CapturePromotionQueen => Some(Piece::Queen),
            _ => None,
        }
    }

    /// The four-bit code of this move kind.
    pub fn to_code(self) -> (r: u16)
        ensures
            r == self.code(),
            r < 16,
    {
        match self {
            MoveType::Normal => 0,
            MoveType::DoublePush => 1,
            MoveType::QueensideCastle => 2,
            MoveType::KingsideCastle => 3,
            MoveType::PromotionKnight => 4,
            MoveType::PromotionBishop => 5,
            MoveType::PromotionRook => 6,
            MoveType::PromotionQueen => 7,
            MoveType::Capture => 8,
            MoveType::EnPassant => 9,
            MoveType::Unused1 => 10,
            MoveType::Unused2 => 11,
            MoveType::CapturePromotionKnight => 12,
            MoveType::CapturePromotionBishop => 13,
            MoveType::CapturePromotionRook => 14,
            MoveType::CapturePromotionQueen => 15,
        }
    }

    /// The move kind with four-bit code `c`.
    pub fn from_code(c: u16) -> (r: MoveType)
        requires
            c < 16,
        ensures
            r == kind_of_code(c as int),
            r.code() == c,
    {
        match c {
            0 => MoveType::Normal,
            1 => MoveType::DoublePush,
            2 => MoveType::QueensideCastle,
            3 => MoveType::KingsideCastle,
            4 => MoveType::PromotionKnight,
            5 => MoveType::PromotionBishop,
            6 => MoveType::PromotionRook,
            7 => MoveType::PromotionQueen,
            8 => MoveType::Capture,
            9 => MoveType::EnPassant,
            10 => MoveType::Unused1,
            11 => MoveType::Unused2,
            12 => MoveType::CapturePromotionKnight,
            13 => MoveType::CapturePromotionBishop,
            14 => MoveType::CapturePromotionRook,
            _ => MoveType::CapturePromotionQueen,
        }
    }

    /// True if this kind captures a piece.
    pub fn is_capture(self) -> (r: bool)
        ensures
            r == self.captures(),
    {
        let this = self.to_code();
        proof {
            lemma_flag_bits(this);
        }
        (this & 0b1000) != 0
    }

    /// True if this kind promotes a pawn.
    pub fn is_promotion(self) -> (r: bool)
        ensures
            r == self.promotes(),
    {
        let this = self.to_code();
        proof {
            lemma_flag_bits(this);
        }
        (this & 0b0100) != 0
    }

    /// The piece a pawn is promoted to by this kind, if any.
    pub fn promotion_piece(self) -> (r: Option<Piece>)
        ensures
            r == self.promotion(),
            r is Some <==> self.promotes(),
    {
        match self {
            MoveType::PromotionKnight => Some(Piece::Knight),
            MoveType::PromotionBishop => Some(Piece::Bishop),
            MoveType::PromotionRook => Some(Piece::Rook),
            MoveType::PromotionQueen => Some(Piece::Queen),
            MoveType::CapturePromotionKnight => Some(Piece::Knight),
            MoveType::CapturePromotionBishop => Some(Piece::Bishop),
            MoveType::CapturePromotionRook => Some(Piece::Rook),
            MoveType::CapturePromotionQueen => Some(Piece::Queen),
            _ => None,
        }
    }
}

impl Default for MoveType {
    /// The kind of a move that is neither a capture nor a promotion.
    fn default() -> (r: MoveType)
        ensures
            r == MoveType::Normal,
    {
        MoveType::Normal
    }
}

/// A chess move packed into 16 bits: origin in bits 0-5, destination in bits 6-11 and kind in
/// bits 12-15. The packed value is never zero.
#[derive(Copy, Clone, PartialEq, Eq, Debug, Structural)]
pub struct Move(u16);

proof fn lemma_pack(f: u16, d: u16, k: u16)
    by (bit_vector)
    requires
        f < 64,
        d < 64,
        k < 16,
    ensures
        ({
            let v = (k << 12) | (d << 6) | f;
            &&& v & 0x003F == f
            &&& (v & 0x0FC0) >> 6 == d
            &&& (v & 0xF000) >> 12 == k
            &&& (v == 0) == (f == 0 && d == 0 && k == 0)
        }),
{
}

proof fn lemma_unpack(v: u16)
    by (bit_vector)
    ensures
        v & 0x003F < 64,
        (v & 0x0FC0) >> 6 < 64,
        (v & 0xF000) >> 12 < 16,
        v == (((v & 0xF000) >> 12) << 12) | (((v & 0x0FC0) >> 6) << 6) | (v & 0x003F),
{
}

impl Move {
    /// The packed 16-bit value.
    pub closed spec fn bits(self) -> u16 {
        self.0
    }

    #[verifier::type_invariant]
    spec fn nonzero(self) -> bool {
        self.0 != 0
    }

    /// The origin and destination of a move are square numbers, and its kind code is below 16.
    pub proof fn lemma_fields_range(m: Move)
        ensures
            0 <= m.from_idx() < 64,
            0 <= m.dest_idx() < 64,
            0 <= m.kind_code() < 16,
    {
        lemma_unpack(m.bits());
    }

    /// The origin square number.
    pub open spec fn from_idx(self) -> int {
        (self.bits() & 0x003F) as int
    }

    /// The destination square number.
    pub open spec fn dest_idx(self) -> int {
        ((self.bits() & 0x0FC0) >> 6) as int
    }

    /// The four-bit kind code.
    pub open spec fn kind_code(self) -> int {
        ((self.bits() & 0xF000) >> 12) as int
    }

    /// The kind of this move.
    pub open spec fn move_kind(self) -> MoveType {
        kind_of_code(self.kind_code())
    }

    /// Create a new Move. The all-zero encoding (a1 to a1, normal) has no representation.
    pub fn new(from: Square, dest: Square, kind: MoveType) -> (r: Move)
        requires
            !(from.index() == 0 && dest.index() == 0 && kind == MoveType::Normal),
        ensures
            r.from_idx() == from.index(),
            r.dest_idx() == dest.index(),
            r.move_kind() == kind,
            r.kind_code() == kind.code(),
    {
        let from = from.into_inner() as u16;
        let dest = dest.into_inner() as u16;
        let kind = kind.to_code();
        let value = (kind << 12) | (dest << 6) | from;
        proof {
            lemma_pack(from, dest, kind);
        }
        Move(value)
    }

    /// The packed 16-bit value of this move.
    pub fn into_inner(self) -> (r: u16)
        ensures
            r == self.bits(),
            r != 0,
    {
        proof {
            use_type_invariant(&self);
        }
        self.0
    }

    /// True if this move captures.
    pub fn is_capture(&self) -> (r: bool)
        ensures
            r == self.move_kind().captures(),
    {
        self.kind().is_capture()
    }

    /// True if this move promotes.
    pub fn is_promotion(&self) -> (r: bool)
        ensures
            r == self.move_kind().promotes(),
    {
        self.kind().is_promotion()
    }

    /// The piece this move promotes to, if any.
    pub fn promotion_piece(&self) -> (r: Option<Piece>)
        ensures
            r == self.move_kind().promotion(),
    {
        self.kind().promotion_piece()
    }

    /// The origin square.
    pub fn from(self) -> (r: Square)
        ensures
            r.index() == self.from_idx(),
    {
        let v = self.0;
        proof {
            lemma_unpack(v);
        }
        Square::from_u8_unchecked((v & 0x003F) as u8)
    }

    /// The destination square.
    pub fn dest(self) -> (r: Square)
        ensures
            r.index() == self.dest_idx(),
    {
        let v = self.0;
        proof {
            lemma_unpack(v);
        }
        Square::from_u8_unchecked(((v & 0x0FC0) >> 6) as u8)
    }

    /// The kind of this move.
    pub fn kind(self) -> (r: MoveType)
        ensures
            r == self.move_kind(),
    {
        let v = self.0;
        proof {
            lemma_unpack(v);
        }
        MoveType::from_code((v & 0xF000) >> 12)
    }

    /// A move is determined by its origin, destination and kind.
    pub proof fn lemma_components_determine(a: Move, b: Move)
        requires
            a.from_idx() == b.from_idx(),
            a.dest_idx() == b.dest_idx(),
            a.kind_code() == b.kind_code(),
        ensures
            a.bits() == b.bits(),
    {
        lemma_unpack(a.bits());
        lemma_unpack(b.bits());
    }

    /// Decoding a freshly built move gives back its parts.
    pub proof fn lemma_new_roundtrip(from: int, dest: int, kind: MoveType)
        requires
            0 <= from < 64,
            0 <= dest < 64,
        ensures
            ({
                let v = ((kind.code() as u16) << 12) | ((dest as u16) << 6) | (from as u16);
                &&& (v & 0x003F) as int == from
                &&& ((v & 0x0FC0) >> 6) as int == dest
                &&& kind_of_code(((v & 0xF000) >> 12) as int) == kind
            }),
    {
        lemma_pack(from as u16, dest as u16, kind.code() as u16);
    }
}

impl Default for Move {
    /// The placeholder move used to fill empty move arrays (all bits set).
    fn default() -> (r: Move)
        ensures
            r.bits() == 0xFFFF,
            r.from_idx() == 63,
            r.dest_idx() == 63,
            r.move_kind() == MoveType::CapturePromotionQueen,
    {
        proof {
            lemma_pack(63, 63, 15);
            assert((15u16 << 12) | (63u16 << 6) | 63u16 == 0xFFFF) by (bit_vector);
        }
        Move(0xFFFF)
    }
}

} // verus!
