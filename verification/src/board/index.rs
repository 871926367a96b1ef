use vstd::prelude::*;

use crate::board::piecemask::Piecemask;
use crate::colour::Colour;
use crate::piece::Piece;
use crate::square::Square;

verus! {

/// Bit `i` of `x`.
pub open spec fn bit64(x: u64, i: int) -> bool {
    0 <= i < 64 && (x >> (i as u64)) & 1 == 1
}

/// Setting bit `s` of `x` sets that bit and keeps the others; no bit of zero is set.
pub proof fn lemma_set_bit64(x: u64, s: u64, i: u64)
    by (bit_vector)
    requires
        s < 64,
        i < 64,
    ensures
        ((x | (1u64 << s)) >> i) & 1 == 1 <==> ((x >> i) & 1 == 1 || i == s),
        (0u64 >> i) & 1 == 0,
{
}

/// The colour owning piece index `i`: indices 0-15 are white and 16-31 black.
pub open spec fn colour_of_index(i: int) -> Colour {
    if i < 16 {
        Colour::White
    } else {
        Colour::Black
    }
}

/// An index into the 32 piece slots of a board.
#[derive(Copy, Clone, Debug, PartialEq, Eq, Structural)]
pub struct PieceIndex(u8);

impl PieceIndex {
    /// The slot number, 0 to 31.
    pub closed spec fn index(self) -> int {
        self.0 as int % 32
    }

    #[verifier::type_invariant]
    spec fn in_range(self) -> bool {
        self.0 < 32
    }

    /// Every slot number is below 32.
    pub broadcast proof fn lemma_index_range(p: PieceIndex)
        ensures
            0 <= #[trigger] p.index() < 32,
    {
    }

    /// Make a piece index from a slot number below 32.
    pub fn new_unchecked(x: u8) -> (r: PieceIndex)
        requires
            x < 32,
        ensures
            r.index() == x,
    {
        PieceIndex(x)
    }

    /// Make a piece index from a slot number, if it is below 32.
    pub fn try_from_u8(value: u8) -> (r: Result<PieceIndex, ()>)
        ensures
            value < 32 <==> r is Ok,
            r matches Ok(p) ==> p.index() == value,
    {
        if value > 31 {
            return Err(());
        }
        Ok(PieceIndex(value))
    }

    /// The slot number, 0 to 31.
    pub fn into_inner(self) -> (r: u8)
        ensures
            r == self.index(),
            r < 32,
    {
        proof {
            use_type_invariant(&self);
        }
        self.0
    }

    /// True for the white slots 0-15.
    pub fn is_white(self) -> (r: bool)
        ensures
            r == (self.index() <= 15),
    {
        self.into_inner() <= 15
    }

    /// True for the black slots 16-31.
    pub fn is_black(self) -> (r: bool)
        ensures
            r == (self.index() >= 16),
    {
        self.into_inner() >= 16
    }

    /// The colour owning this slot.
    pub fn colour(self) -> (r: Colour)
        ensures
            r == colour_of_index(self.index()),
    {
        if self.is_white() {
            Colour::White
        } else {
            Colour::Black
        }
    }
}

/// A `Square` -> `PieceIndex` mapping.
#[derive(Clone, Copy)]
pub struct PieceIndexArray([Option<PieceIndex>; 64]);

impl View for PieceIndexArray {
    type V = Seq<Option<PieceIndex>>;

    closed spec fn view(&self) -> Seq<Option<PieceIndex>> {
        self.0@
    }
}

impl PieceIndexArray {
    /// The array always has one slot per square.
    pub broadcast proof fn lemma_len(a: PieceIndexArray)
        ensures
            #[trigger] a@.len() == 64,
    {
    }

    /// Create a new, empty `PieceIndexArray`.
    pub fn new() -> (r: PieceIndexArray)
        ensures
            r@ == Seq::new(64, |i: int| None::<PieceIndex>),
    {
        let r = PieceIndexArray([None; 64]);
        assert(r@ =~= Seq::new(64, |i: int| None::<PieceIndex>));
        r
    }

    /// The piece index on a square, if any.
    pub fn get(&self, square: Square) -> (r: Option<PieceIndex>)
        ensures
            r == self@[square.index()],
    {
        self.0[square.into_inner() as usize]
    }

    /// Add a `PieceIndex` to an empty `Square`.
    pub fn add_piece(&mut self, piece_index: PieceIndex, square: Square)
        requires
            old(self)@[square.index()] is None,
        ensures
            final(self)@ == old(self)@.update(square.index(), Some(piece_index)),
    {
        let s = square.into_inner() as usize;
        self.0[s] = Some(piece_index);
    }

    /// Remove the `PieceIndex` from a `Square`, which holds it.
    pub fn remove_piece(&mut self, piece_index: PieceIndex, square: Square)
        requires
            old(self)@[square.index()] matches Some(p) && p.index() == piece_index.index(),
        ensures
            final(self)@ == old(self)@.update(square.index(), None),
    {
        let s = square.into_inner() as usize;
        self.0[s] = None;
    }

    /// Move a piece from `from_square` to `dest_square`.
    pub fn move_piece(&mut self, piece_index: PieceIndex, from_square: Square, dest_square: Square)
        ensures
            final(self)@ == old(self)@.update(from_square.index(), None).update(
                dest_square.index(),
                Some(piece_index),
            ),
    {
        let f = from_square.into_inner() as usize;
        let d = dest_square.into_inner() as usize;
        self.0[f] = None;
        self.0[d] = Some(piece_index);
    }
}

/// A set of ray-space squares: bit `8 * ray + hop` for hop `hop` of ray `ray`.
#[derive(Clone, Copy)]
pub struct RayMask(pub u64);

impl View for RayMask {
    type V = u64;

    open spec fn view(&self) -> u64 {
        self.0
    }
}

/// The bits of `x` from hop 1 of ray `q` up to, but not including, hop `h`.
pub open spec fn hops_before(x: u64, q: u64, h: u64) -> u64 {
    (x >> ((8 * q + 1) as u64)) & (((1u64 << ((h - 1) as u64)) - 1) as u64)
}

/// The low and high bit of every byte, and the low two bits of every byte.
proof fn lemma_nearest_bit(x: u64, d: u64, q: u64, h: u64)
    by (bit_vector)
    requires
        q < 8,
        h < 8,
        d == (x | 0x8181_8181_8181_8181u64) - 0x0303_0303_0303_0303u64,
    ensures
        h == 0 ==> (((x | 0x8181_8181_8181_8181u64) ^ d) >> ((8 * q + h) as u64)) & 1 == 1,
        1 <= h ==> ((((x | 0x8181_8181_8181_8181u64) ^ d) >> ((8 * q + h) as u64)) & 1 == 1 <==> hops_before(
            x,
            q,
            h,
        ) == 0),
{
}

/// Extending the hops before `h` by hop `h` itself.
proof fn lemma_hops_step(x: u64, q: u64, h: u64)
    by (bit_vector)
    requires
        q < 8,
        1 <= h < 8,
    ensures
        hops_before(x, q, 1) == 0,
        hops_before(x, q, (h + 1) as u64) == 0 <==> (hops_before(x, q, h) == 0 && (x >> ((8 * q + h) as u64))
            & 1 != 1),
{
}

/// Facts about or, and and subtraction on 64-bit words.
proof fn lemma_word_bits(a: u64, b: u64, i: u64)
    by (bit_vector)
    requires
        i < 64,
    ensures
        (a | 0x8181_8181_8181_8181u64) >= 0x0303_0303_0303_0303u64,
        ((a & b) >> i) & 1 == 1 <==> ((a >> i) & 1 == 1 && (b >> i) & 1 == 1),
        ((a & (1u64 << i)) != 0) <==> ((a >> i) & 1 == 1),
{
}

/// The bit of `x` for hop `h` of ray `q`.
pub open spec fn ray_bit(x: u64, q: int, h: int) -> bool {
    bit64(x, 8 * q + h)
}

/// No bit of `x` lies on ray `q` strictly between the centre and hop `h`.
pub open spec fn clear_before(x: u64, q: int, h: int) -> bool {
    forall|j: int| 1 <= j < h ==> !#[trigger] ray_bit(x, q, j)
}

/// The hops before `h` hold no bit exactly when the ray is clear up to `h`.
proof fn lemma_hops_clear(x: u64, q: u64, h: u64)
    requires
        q < 8,
        1 <= h <= 8,
    ensures
        hops_before(x, q, h) == 0 <==> clear_before(x, q as int, h as int),
    decreases h,
{
    if h == 1 {
        lemma_hops_step(x, q, 1);
    } else {
        let g = (h - 1) as u64;
        lemma_hops_clear(x, q, g);
        lemma_hops_step(x, q, g);
        assert(8 * q + g < 64);
        assert(hops_before(x, q, (g + 1) as u64) == hops_before(x, q, h));
        assert(ray_bit(x, q as int, g as int) <==> (x >> ((8 * q + g) as u64)) & 1 == 1);
        assert(hops_before(x, q, h) == 0 <==> (hops_before(x, q, g) == 0 && !ray_bit(x, q as int, g as int)));
        assert(clear_before(x, q as int, h as int) ==> clear_before(x, q as int, g as int));
        if clear_before(x, q as int, (h - 1) as int) && !ray_bit(x, q as int, h - 1) {
            assert forall|j: int| 1 <= j < h implies !#[trigger] ray_bit(x, q as int, j) by {
                if j < h - 1 {
                    assert(!ray_bit(x, q as int, j));
                }
            }
        }
        if clear_before(x, q as int, h as int) {
            assert(!ray_bit(x, q as int, h - 1));
        }
    }
}

impl RayMask {
    /// Keep, on each ray, the knight square and every square up to and including the first one
    /// in the mask (or the whole ray when none is).
    pub fn mask_to_nearest(self) -> (r: RayMask)
        ensures
            forall|q: int, h: int|
                0 <= q < 8 && 0 <= h < 8 ==> (#[trigger] ray_bit(r@, q, h) <==> (h == 0 || clear_before(
                    self@,
                    q,
                    h,
                ))),
    {
        let o = self.0 | 0x8181_8181_8181_8181u64;
        proof {
            lemma_word_bits(self.0, 0, 0);
        }
        let d = o - 0x0303_0303_0303_0303u64;
        let r = RayMask(o ^ d);
        proof {
            assert forall|q: int, h: int|
                0 <= q < 8 && 0 <= h < 8 implies (#[trigger] ray_bit(r@, q, h) <==> (h == 0 || clear_before(
                self@,
                q,
                h,
            ))) by {
                lemma_nearest_bit(self.0, d, q as u64, h as u64);
                if h >= 1 {
                    lemma_hops_clear(self.0, q as u64, h as u64);
                }
            }
        }
        r
    }

    /// Keep, on each ray, the knight square and the nearest square, when they are in the mask.
    pub fn nearest(self) -> (r: RayMask)
        ensures
            forall|q: int, h: int|
                0 <= q < 8 && 0 <= h < 8 ==> (#[trigger] ray_bit(r@, q, h) <==> (ray_bit(self@, q, h)
                    && (h == 0 || clear_before(self@, q, h)))),
    {
        let m = self.mask_to_nearest();
        let r = RayMask(self.0 & m.0);
        proof {
            assert forall|q: int, h: int|
                0 <= q < 8 && 0 <= h < 8 implies (#[trigger] ray_bit(r@, q, h) <==> (ray_bit(self@, q, h)
                && (h == 0 || clear_before(self@, q, h)))) by {
                lemma_word_bits(self.0, m.0, (8 * q + h) as u64);
                assert(ray_bit(m@, q, h) <==> (h == 0 || clear_before(self@, q, h)));
            }
        }
        r
    }

    /// True if bit `index` is set.
    pub fn nth(self, index: usize) -> (r: bool)
        requires
            index < 64,
        ensures
            r == bit64(self@, index as int),
    {
        proof {
            lemma_word_bits(self.0, 0, index as u64);
        }
        (self.0 & (1u64 << index)) != 0
    }
}

/// A `Square` -> `PieceIndex` mapping in ray-space: around a centre square, entry
/// `8 * ray + hop` of ray `ray` (north, north-east, east, south-east, south, south-west, west,
/// north-west, in that order) holds, for hop 0, the square a knight jump away in that ray's
/// sector, and for hops 1 to 7 the squares along the ray, nearest first.
#[derive(Clone, Copy)]
pub struct PieceIndexRays(pub [Option<PieceIndex>; 64]);

impl View for PieceIndexRays {
    type V = Seq<Option<PieceIndex>>;

    open spec fn view(&self) -> Seq<Option<PieceIndex>> {
        self.0@
    }
}

/// A `Square` -> `Piece` mapping in ray-space.
#[derive(Clone, Copy)]
pub struct PieceRays(pub [Option<Piece>; 64]);

impl View for PieceRays {
    type V = Seq<Option<Piece>>;

    open spec fn view(&self) -> Seq<Option<Piece>> {
        self.0@
    }
}

/// True if a piece of type `piece` and colour `colour` on hop `h` of ray `r` attacks the
/// centre: a knight on a knight square; next to the centre a king, a rook or queen along a
/// straight ray, and a bishop, queen or a pawn moving towards the centre along a diagonal one;
/// further out a rook or queen along a straight ray and a bishop or queen along a diagonal one.
pub open spec fn ray_attacker(r: int, h: int, piece: Piece, colour: Colour) -> bool {
    if h == 0 {
        piece == Piece::Knight
    } else if r % 2 == 0 {
        piece == Piece::Rook || piece == Piece::Queen || (h == 1 && piece == Piece::King)
    } else {
        ||| piece == Piece::Bishop
        ||| piece == Piece::Queen
        ||| h == 1 && piece == Piece::King
        ||| h == 1 && piece == Piece::Pawn && colour == Colour::Black && (r == 1 || r == 7)
        ||| h == 1 && piece == Piece::Pawn && colour == Colour::White && (r == 3 || r == 5)
    }
}

/// True if a piece of type `piece` on hop `h` of ray `r` is a slider that moves along that
/// ray: a rook or queen along a straight ray, a bishop or queen along a diagonal one.
pub open spec fn ray_slider(r: int, h: int, piece: Piece) -> bool {
    if h == 0 {
        false
    } else if r % 2 == 0 {
        piece == Piece::Rook || piece == Piece::Queen
    } else {
        piece == Piece::Bishop || piece == Piece::Queen
    }
}

/// The entry for hop `h` of ray `r`.
pub open spec fn ray_entry<T>(s: Seq<T>, r: int, h: int) -> T {
    s[8 * r + h]
}

/// The first entry on ray `r` from hop `h` outwards that holds a piece, if any.
pub open spec fn first_from(s: Seq<Option<PieceIndex>>, r: int, h: int) -> Option<PieceIndex>
    decreases 8 - h,
{
    if h >= 8 {
        None
    } else if ray_entry(s, r, h) is Some {
        ray_entry(s, r, h)
    } else {
        first_from(s, r, h + 1)
    }
}

/// The first piece along a ray depends only on the entries of that ray from `h` outwards.
proof fn lemma_first_from_same(s1: Seq<Option<PieceIndex>>, s2: Seq<Option<PieceIndex>>, r: int, h: int)
    requires
        forall|j: int| h <= j < 8 ==> #[trigger] ray_entry(s1, r, j) == ray_entry(s2, r, j),
    ensures
        first_from(s1, r, h) == first_from(s2, r, h),
    decreases 8 - h,
{
    if h < 8 {
        lemma_first_from_same(s1, s2, r, h + 1);
    }
}

/// The attack-pattern bits of hop `h` of ray `r`.
pub open spec fn attacker_pattern(r: int, h: int) -> u8 {
    if h == 0 {
        0b000_0100
    } else if r % 2 == 0 {
        if h == 1 {
            0b111_0000
        } else {
            0b011_0000
        }
    } else if h == 1 {
        if r == 1 || r == 7 {
            0b110_1010
        } else {
            0b110_1001
        }
    } else {
        0b010_1000
    }
}

/// The slider bits of hop `h` of ray `r`.
pub open spec fn slider_pattern(r: int, h: int) -> u8 {
    if h == 0 {
        0
    } else if r % 2 == 0 {
        0b011_0000
    } else {
        0b010_1000
    }
}

/// The position of the bit of a piece type and colour in the attack patterns.
pub open spec fn pattern_shift(piece: Piece, colour: Colour) -> u8 {
    if piece == Piece::Pawn {
        if colour == Colour::White {
            0
        } else {
            1
        }
    } else {
        (piece.ord() + 1) as u8
    }
}

/// Which piece bits each attack pattern holds.
proof fn lemma_pattern_bits(n: u8)
    by (bit_vector)
    requires
        n < 7,
    ensures
        (0b000_0100u8 & (1u8 << n)) == (1u8 << n) <==> n == 2,
        (0b111_0000u8 & (1u8 << n)) == (1u8 << n) <==> (n == 4 || n == 5 || n == 6),
        (0b011_0000u8 & (1u8 << n)) == (1u8 << n) <==> (n == 4 || n == 5),
        (0b110_1010u8 & (1u8 << n)) == (1u8 << n) <==> (n == 1 || n == 3 || n == 5 || n == 6),
        (0b110_1001u8 & (1u8 << n)) == (1u8 << n) <==> (n == 0 || n == 3 || n == 5 || n == 6),
        (0b010_1000u8 & (1u8 << n)) == (1u8 << n) <==> (n == 3 || n == 5),
        (0u8 & (1u8 << n)) != (1u8 << n),
{
}

/// The attack pattern of a ray-space square holds a piece's bit exactly when that piece there
/// attacks the centre, and the slider pattern exactly when it slides towards the centre.
proof fn lemma_patterns(r: int, h: int, piece: Piece, colour: Colour)
    requires
        0 <= r < 8,
        0 <= h < 8,
    ensures
        (attacker_pattern(r, h) & (1u8 << pattern_shift(piece, colour))) == (1u8 << pattern_shift(
            piece,
            colour,
        )) <==> ray_attacker(r, h, piece, colour),
        (slider_pattern(r, h) & (1u8 << pattern_shift(piece, colour))) == (1u8 << pattern_shift(
            piece,
            colour,
        )) <==> ray_slider(r, h, piece),
{
    lemma_pattern_bits(pattern_shift(piece, colour));
}

/// The attack-pattern bits of the centre's ray-space square `sq`: the bit of a piece type and
/// colour is set when such a piece there attacks the centre.
fn attacker_lut(sq: usize) -> (r: u8)
    requires
        sq < 64,
    ensures
        r == attacker_pattern(sq as int / 8, sq as int % 8),
{
    let ray = sq / 8;
    let hop = sq % 8;
    if hop == 0 {
        0b000_0100
    } else if ray % 2 == 0 {
        if hop == 1 {
            0b111_0000
        } else {
            0b011_0000
        }
    } else if hop == 1 {
        if ray == 1 || ray == 7 {
            0b110_1010
        } else {
            0b110_1001
        }
    } else {
        0b010_1000
    }
}

/// The slider bits of the centre's ray-space square `sq`.
fn slider_lut(sq: usize) -> (r: u8)
    requires
        sq < 64,
    ensures
        r == slider_pattern(sq as int / 8, sq as int % 8),
{
    let ray = sq / 8;
    let hop = sq % 8;
    if hop == 0 {
        0
    } else if ray % 2 == 0 {
        0b011_0000
    } else {
        0b010_1000
    }
}

/// The bit of a piece type and colour in the attack patterns: one per pawn colour, then one
/// per other piece type.
fn pattern_bit(piece: Piece, colour: Colour) -> (r: u8)
    ensures
        r == 1u8 << pattern_shift(piece, colour),
        pattern_shift(piece, colour) < 7,
{
    let shift: u8 = piece.ordinal() + if piece == Piece::Pawn {
        match colour {
            Colour::White => 0,
            Colour::Black => 1,
        }
    } else {
        1
    };
    1u8 << shift
}

impl PieceIndexRays {
    /// The piece type on each ray-space square.
    pub fn to_piece_rays(&self, piecemasks: &Piecemask) -> (r: PieceRays)
        ensures
            forall|i: int|
                0 <= i < 64 ==> #[trigger] r@[i] == match self@[i] {
                    Some(idx) => piecemasks.slot(idx.index()),
                    None => None,
                },
    {
        let mut rays = PieceRays([None; 64]);
        let mut square: usize = 0;
        while square < 64
            invariant
                square <= 64,
                rays@.len() == 64,
                self@.len() == 64,
                forall|i: int|
                    0 <= i < square ==> #[trigger] rays@[i] == match self@[i] {
                        Some(idx) => piecemasks.slot(idx.index()),
                        None => None,
                    },
                forall|i: int| square <= i < 64 ==> #[trigger] rays@[i] is None,
            decreases 64 - square,
        {
            if let Some(index) = self.0[square] {
                rays.0[square] = piecemasks.piece(index);
            }
            square += 1;
        }
        rays
    }

    /// The ray-space squares holding a piece that attacks the centre.
    pub fn attackers(&self, piecemasks: &Piecemask) -> (r: RayMask)
        requires
            forall|i: int|
                0 <= i < 64 && #[trigger] self@[i] is Some ==> piecemasks.slot(self@[i].unwrap().index()) is Some,
        ensures
            forall|i: int|
                0 <= i < 64 ==> (#[trigger] bit64(r@, i) <==> (self@[i] matches Some(idx) && ray_attacker(
                    i / 8,
                    i % 8,
                    piecemasks.slot(idx.index()).unwrap(),
                    colour_of_index(idx.index()),
                ))),
    {
        let mut mask = RayMask(0);
        let mut square: usize = 0;
        proof {
            assert forall|i: int| 0 <= i < 64 implies !#[trigger] bit64(mask@, i) by {
                lemma_set_bit64(0, 0, i as u64);
            }
        }
        while square < 64
            invariant
                square <= 64,
                self@.len() == 64,
                forall|i: int|
                    0 <= i < 64 && #[trigger] self@[i] is Some ==> piecemasks.slot(self@[i].unwrap().index()) is Some,
                forall|i: int|
                    0 <= i < 64 ==> (#[trigger] bit64(mask@, i) <==> (i < square && (self@[i] matches Some(idx)
                        && ray_attacker(
                        i / 8,
                        i % 8,
                        piecemasks.slot(idx.index()).unwrap(),
                        colour_of_index(idx.index()),
                    )))),
            decreases 64 - square,
        {
            if let Some(index) = self.0[square] {
                let piece = match piecemasks.piece(index) {
                    Some(p) => p,
                    None => {
                        square += 1;
                        continue;
                    },
                };
                let colour = index.colour();
                let bit = pattern_bit(piece, colour);
                let valid = (attacker_lut(square) & bit) == bit;
                proof {
                    lemma_patterns(square as int / 8, square as int % 8, piece, colour);
                }
                if valid {
                    let ghost old_mask = mask;
                    mask = RayMask(mask.0 | (1u64 << (square as u64)));
                    proof {
                        assert forall|i: int| 0 <= i < 64 implies (#[trigger] bit64(mask@, i) <==> (bit64(
                            old_mask@,
                            i,
                        ) || i == square)) by {
                            lemma_set_bit64(old_mask@, square as u64, i as u64);
                        }
                    }
                }
            }
            square += 1;
        }
        mask
    }

    /// The ray-space squares holding a slider that moves along its ray towards the centre.
    pub fn sliders(&self, piecemasks: &Piecemask) -> (r: RayMask)
        requires
            forall|i: int|
                0 <= i < 64 && #[trigger] self@[i] is Some ==> piecemasks.slot(self@[i].unwrap().index()) is Some,
        ensures
            forall|i: int|
                0 <= i < 64 ==> (#[trigger] bit64(r@, i) <==> (self@[i] matches Some(idx) && ray_slider(
                    i / 8,
                    i % 8,
                    piecemasks.slot(idx.index()).unwrap(),
                ))),
    {
        let mut mask = RayMask(0);
        let mut square: usize = 0;
        proof {
            assert forall|i: int| 0 <= i < 64 implies !#[trigger] bit64(mask@, i) by {
                lemma_set_bit64(0, 0, i as u64);
            }
        }
        while square < 64
            invariant
                square <= 64,
                self@.len() == 64,
                forall|i: int|
                    0 <= i < 64 && #[trigger] self@[i] is Some ==> piecemasks.slot(self@[i].unwrap().index()) is Some,
                forall|i: int|
                    0 <= i < 64 ==> (#[trigger] bit64(mask@, i) <==> (i < square && (self@[i] matches Some(idx)
                        && ray_slider(i / 8, i % 8, piecemasks.slot(idx.index()).unwrap())))),
            decreases 64 - square,
        {
            if let Some(index) = self.0[square] {
                let piece = match piecemasks.piece(index) {
                    Some(p) => p,
                    None => {
                        square += 1;
                        continue;
                    },
                };
                let colour = index.colour();
                let bit = pattern_bit(piece, colour);
                let valid = (slider_lut(square) & bit) == bit;
                proof {
                    lemma_patterns(square as int / 8, square as int % 8, piece, colour);
                }
                if valid {
                    let ghost old_mask = mask;
                    mask = RayMask(mask.0 | (1u64 << (square as u64)));
                    proof {
                        assert forall|i: int| 0 <= i < 64 implies (#[trigger] bit64(mask@, i) <==> (bit64(
                            old_mask@,
                            i,
                        ) || i == square)) by {
                            lemma_set_bit64(old_mask@, square as u64, i as u64);
                        }
                    }
                }
            }
            square += 1;
        }
        mask
    }

    /// The ray-space squares holding a piece.
    pub fn occupied(&self) -> (r: RayMask)
        ensures
            forall|i: int| 0 <= i < 64 ==> (#[trigger] bit64(r@, i) <==> self@[i] is Some),
    {
        let mut mask = RayMask(0);
        let mut square: usize = 0;
        proof {
            assert forall|i: int| 0 <= i < 64 implies !#[trigger] bit64(mask@, i) by {
                lemma_set_bit64(0, 0, i as u64);
            }
        }
        while square < 64
            invariant
                square <= 64,
                self@.len() == 64,
                forall|i: int|
                    0 <= i < 64 ==> (#[trigger] bit64(mask@, i) <==> (i < square && self@[i] is Some)),
            decreases 64 - square,
        {
            if self.0[square].is_some() {
                let ghost old_mask = mask;
                mask = RayMask(mask.0 | (1u64 << (square as u64)));
                proof {
                    assert forall|i: int| 0 <= i < 64 implies (#[trigger] bit64(mask@, i) <==> (i < square + 1
                        && self@[i] is Some)) by {
                        lemma_set_bit64(old_mask@, square as u64, i as u64);
                        assert(bit64(old_mask@, i) <==> (i < square && self@[i] is Some));
                        assert(bit64(mask@, i) <==> (bit64(old_mask@, i) || i == square));
                    }
                }
            }
            square += 1;
        }
        mask
    }

    /// The ray-space squares holding a piece of `colour`.
    pub fn pieces_of_colour(&self, colour: Colour) -> (r: RayMask)
        ensures
            forall|i: int|
                0 <= i < 64 ==> (#[trigger] bit64(r@, i) <==> (self@[i] matches Some(idx) && colour_of_index(
                    idx.index(),
                ) == colour)),
    {
        let mut mask = RayMask(0);
        let mut square: usize = 0;
        proof {
            assert forall|i: int| 0 <= i < 64 implies !#[trigger] bit64(mask@, i) by {
                lemma_set_bit64(0, 0, i as u64);
            }
        }
        while square < 64
            invariant
                square <= 64,
                self@.len() == 64,
                forall|i: int|
                    0 <= i < 64 ==> (#[trigger] bit64(mask@, i) <==> (i < square && (self@[i] matches Some(idx)
                        && colour_of_index(idx.index()) == colour))),
            decreases 64 - square,
        {
            if let Some(index) = self.0[square] {
                if index.colour() == colour {
                    let ghost old_mask = mask;
                    mask = RayMask(mask.0 | (1u64 << (square as u64)));
                    proof {
                        assert forall|i: int| 0 <= i < 64 implies (#[trigger] bit64(mask@, i) <==> (bit64(
                            old_mask@,
                            i,
                        ) || i == square)) by {
                            lemma_set_bit64(old_mask@, square as u64, i as u64);
                        }
                    }
                }
            }
            square += 1;
        }
        mask
    }

    /// Empty every ray-space square outside `mask`.
    pub fn mask(&mut self, mask: RayMask)
        ensures
            final(self)@.len() == 64,
            forall|i: int|
                0 <= i < 64 ==> #[trigger] final(self)@[i] == if bit64(mask@, i) {
                    old(self)@[i]
                } else {
                    None
                },
    {
        let mut square: usize = 0;
        while square < 64
            invariant
                square <= 64,
                self@.len() == 64,
                forall|i: int|
                    0 <= i < 64 ==> #[trigger] self@[i] == if i < square && !bit64(mask@, i) {
                        None
                    } else {
                        old(self)@[i]
                    },
            decreases 64 - square,
        {
            if !mask.nth(square) {
                self.0[square] = None;
            }
            square += 1;
        }
    }

    /// Fill each ray beyond the knight square with the first piece along it, or empty it when
    /// the ray holds none.
    pub fn ray_broadcast(&mut self)
        ensures
            final(self)@.len() == 64,
            forall|r: int, h: int|
                0 <= r < 8 && 1 <= h < 8 ==> #[trigger] ray_entry(final(self)@, r, h) == first_from(
                    old(self)@,
                    r,
                    1,
                ),
            forall|r: int| 0 <= r < 8 ==> #[trigger] ray_entry(final(self)@, r, 0) == ray_entry(old(self)@, r, 0),
    {
        let ghost start = self@;
        let mut ray: usize = 0;
        while ray < 8
            invariant
                ray <= 8,
                self@.len() == 64,
                start.len() == 64,
                start == old(self)@,
                forall|r: int, h: int|
                    0 <= r < ray && 1 <= h < 8 ==> #[trigger] ray_entry(self@, r, h) == first_from(start, r, 1),
                forall|r: int, h: int|
                    ray <= r < 8 && 0 <= h < 8 ==> #[trigger] ray_entry(self@, r, h) == ray_entry(start, r, h),
                forall|r: int| 0 <= r < 8 ==> #[trigger] ray_entry(self@, r, 0) == ray_entry(start, r, 0),
            decreases 8 - ray,
        {
            let mut possible_index: Option<PieceIndex> = None;
            let mut hop: usize = 1;
            proof {
                lemma_first_from_same(self@, start, ray as int, 1);
            }
            while hop < 8
                invariant_except_break
                    1 <= hop <= 8,
                    possible_index is None,
                    first_from(start, ray as int, 1) == first_from(start, ray as int, hop as int),
                invariant
                    ray < 8,
                    self@.len() == 64,
                    start.len() == 64,
                    forall|h: int| 0 <= h < 8 ==> #[trigger] ray_entry(self@, ray as int, h) == ray_entry(start, ray as int, h),
                ensures
                    possible_index == first_from(start, ray as int, 1),
                decreases 8 - hop,
            {
                if let Some(index) = self.0[8 * ray + hop] {
                    possible_index = Some(index);
                    proof {
                        assert(ray_entry(self@, ray as int, hop as int) == self@[8 * ray + hop]);
                    }
                    break;
                }
                proof {
                    assert(ray_entry(self@, ray as int, hop as int) == self@[8 * ray + hop]);
                }
                hop += 1;
            }
            let ghost before = self@;
            let mut hop: usize = 1;
            while hop < 8
                invariant
                    1 <= hop <= 8,
                    ray < 8,
                    self@.len() == 64,
                    possible_index == first_from(start, ray as int, 1),
                    forall|i: int| 0 <= i < 64 && (i < 8 * ray + 1 || i >= 8 * ray + hop) ==> #[trigger] self@[i] == before[i],
                    forall|i: int| 8 * ray + 1 <= i < 8 * ray + hop ==> #[trigger] self@[i] == possible_index,
                decreases 8 - hop,
            {
                self.0[8 * ray + hop] = possible_index;
                hop += 1;
            }
            proof {
                assert forall|r: int, h: int| 0 <= r < 8 && 0 <= h < 8 && r != ray implies #[trigger] ray_entry(self@, r, h) == ray_entry(before, r, h) by {
                    assert(8 * r + h < 8 * ray + 1 || 8 * r + h >= 8 * ray + 8);
                }
                assert forall|h: int| 1 <= h < 8 implies #[trigger] ray_entry(self@, ray as int, h) == first_from(start, ray as int, 1) by {
                    assert(self@[8 * ray + h] == possible_index);
                }
                assert(ray_entry(self@, ray as int, 0) == ray_entry(before, ray as int, 0));
            }
            ray += 1;
        }
    }

    /// Swap each ray with the opposite one.
    pub fn rotate_180(&mut self)
        ensures
            final(self)@.len() == 64,
            forall|i: int| 0 <= i < 32 ==> #[trigger] final(self)@[i] == old(self)@[i + 32],
            forall|i: int| 32 <= i < 64 ==> #[trigger] final(self)@[i] == old(self)@[i - 32],
    {
        let mut square: usize = 0;
        while square < 32
            invariant
                square <= 32,
                self@.len() == 64,
                forall|i: int|
                    0 <= i < 32 ==> #[trigger] self@[i] == if i < square {
                        old(self)@[i + 32]
                    } else {
                        old(self)@[i]
                    },
                forall|i: int|
                    32 <= i < 64 ==> #[trigger] self@[i] == if i < square + 32 {
                        old(self)@[i - 32]
                    } else {
                        old(self)@[i]
                    },
            decreases 32 - square,
        {
            let low = self.0[square];
            let high = self.0[32 + square];
            self.0[square] = high;
            self.0[32 + square] = low;
            square += 1;
        }
    }
}

} // verus!
