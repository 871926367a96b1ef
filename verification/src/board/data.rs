use vstd::prelude::*;

use crate::board::attacks::{
    attacks, clear_ray, dist, is_queen_dir, lemma_clear_same, lemma_direction_ray, lemma_ray_geometry,
    lemma_ray_injective, lemma_ray_step, lemma_slider_through, pawn_attacks, ray_on, ray_sq,
    slider_attacks,
    strictly_between,
};
use crate::board::bitlist::{Bitlist, BitlistArray, bit, colour_bits, lemma_bit_ops};
use crate::board::index::{PieceIndex, PieceIndexArray, colour_of_index};
use crate::board::piecelist::Piecelist;
use crate::board::piecemask::Piecemask;
use crate::colour::Colour;
use crate::piece::Piece;
use crate::square::{Direction, Square, direction_between, knight_dir, king_dir, step};

verus! {

broadcast use {
    Square::lemma_index_range,
    PieceIndex::lemma_index_range,
    BitlistArray::lemma_len,
    PieceIndexArray::lemma_len,
    Piecelist::lemma_len,
};

/// The board representation: a mailbox of piece slots, the square of each slot, the piece
/// type of each slot, and the attack table.
#[derive(Clone, Copy)]
pub struct BoardData {
    bitlist: BitlistArray,
    piecelist: Piecelist,
    index: PieceIndexArray,
    piecemask: Piecemask,
}

/// The number of bits of a bitlist, for termination measures.
pub open spec fn popcount_of(b: Bitlist) -> nat {
    crate::board::bitlist::popcount(b@)
}

/// A single-bit test through `contains`.
proof fn lemma_contains_bit(x: u32, i: u32)
    requires
        i < 32,
    ensures
        (x & (1u32 << i) != 0) == bit(x, i as int),
{
    crate::board::piecemask::lemma_slot_test_pub(x, i);
}

/// A line from `q` never looks at `q` itself, so occupancies that agree off `q` see it equally
/// clear.
proof fn lemma_clear_ray_near(
    q: int,
    t: int,
    occ1: spec_fn(int) -> bool,
    occ2: spec_fn(int) -> bool,
)
    requires
        0 <= q < 64,
        0 <= t < 64,
        direction_between(q, t) is Some,
        forall|s: int| #![trigger occ1(s)] #![trigger occ2(s)] 0 <= s < 64 && s != q ==> occ1(s) == occ2(s),
    ensures
        clear_ray(q, direction_between(q, t).unwrap(), dist(q, t), occ1) == clear_ray(
            q,
            direction_between(q, t).unwrap(),
            dist(q, t),
            occ2,
        ),
{
    let d = direction_between(q, t).unwrap();
    let n = dist(q, t);
    lemma_direction_ray(q, t);
    assert forall|j: int| 1 <= j < n implies ray_sq(q, d, j) != q && 0 <= ray_sq(q, d, j) < 64 by {
        lemma_ray_geometry(q, d, j);
    }
    if clear_ray(q, d, n, occ1) {
        assert forall|j: int| 1 <= j < n implies !occ2(#[trigger] ray_sq(q, d, j)) by {
            assert(!occ1(ray_sq(q, d, j)));
        }
    }
    if clear_ray(q, d, n, occ2) {
        assert forall|j: int| 1 <= j < n implies !occ1(#[trigger] ray_sq(q, d, j)) by {
            assert(!occ2(ray_sq(q, d, j)));
        }
    }
}

/// True if `t` lies diagonally (or, for `diagonal == false`, orthogonally) from `from`.
pub open spec fn along(from: int, t: int, diagonal: bool) -> bool {
    match direction_between(from, t) {
        Some(d) => if diagonal {
            d.is_diagonal()
        } else {
            d.is_orthogonal()
        },
        None => false,
    }
}

/// True if `t` lies along a diagonal (or orthogonal) line from `from` with nothing in between.
pub open spec fn line_clear(from: int, t: int, diagonal: bool, occupied: spec_fn(int) -> bool) -> bool {
    along(from, t, diagonal) && clear_ray(
        from,
        direction_between(from, t).unwrap(),
        dist(from, t),
        occupied,
    )
}

impl BoardData {
    /// Which squares hold a piece.
    pub open spec fn occupied(self) -> spec_fn(int) -> bool {
        |s: int| self.slot_at(s) is Some
    }

    /// The slot of the piece on square `s`, if any.
    pub closed spec fn slot_at(self, s: int) -> Option<int> {
        match self.index@[s] {
            Some(p) => Some(p.index()),
            None => None,
        }
    }

    /// The square of slot `i`.
    pub closed spec fn sq_of(self, i: int) -> int {
        self.piecelist@[i].index()
    }

    /// Every slot's square is on the board.
    pub broadcast proof fn lemma_sq_of_range(self, i: int)
        ensures
            0 <= #[trigger] self.sq_of(i) < 64,
    {
    }

    /// The piece type of slot `i`, if the slot is in use.
    pub closed spec fn kind(self, i: int) -> Option<Piece> {
        self.piecemask.slot(i)
    }

    /// True if the attack table says slot `i` attacks square `t`.
    pub closed spec fn attacked(self, t: int, i: int) -> bool {
        self.bitlist@[t].has(i)
    }

    /// The piece mask.
    pub closed spec fn mask(self) -> Piecemask {
        self.piecemask
    }

    /// True if slot `i` holds a piece.
    pub open spec fn live(self, i: int) -> bool {
        0 <= i < 32 && self.kind(i) is Some
    }

    /// The piece and colour on square `s`, if any.
    pub open spec fn piece_on(self, s: int) -> Option<(Piece, Colour)> {
        match self.slot_at(s) {
            Some(i) => Some((self.kind(i).unwrap(), colour_of_index(i))),
            None => None,
        }
    }

    /// True if slot `i` holds a piece that attacks `t` given the occupancy `occ`.
    pub open spec fn piece_attacks(self, i: int, t: int, occ: spec_fn(int) -> bool) -> bool {
        self.live(i) && attacks(self.kind(i).unwrap(), colour_of_index(i), self.sq_of(i), t, occ)
    }

    /// The mailbox, the piece list and the piece mask agree.
    pub open spec fn consistent(self) -> bool {
        &&& self.mask().wf()
        &&& forall|s: int|
            0 <= s < 64 ==> match #[trigger] self.slot_at(s) {
                Some(i) => self.live(i) && self.sq_of(i) == s,
                None => true,
            }
        &&& forall|i: int| #[trigger] self.live(i) ==> self.slot_at(self.sq_of(i)) == Some(i)
    }

    /// The attack table of slot `i` is exactly its attacks given `occ`.
    pub open spec fn bits_match(self, i: int, occ: spec_fn(int) -> bool) -> bool {
        forall|t: int| 0 <= t < 64 ==> (#[trigger] self.attacked(t, i) <==> self.piece_attacks(i, t, occ))
    }

    /// Slot `i` has no entry in the attack table.
    pub open spec fn bits_empty(self, i: int) -> bool {
        forall|t: int| 0 <= t < 64 ==> !#[trigger] self.attacked(t, i)
    }

    /// The attack table is exactly the attacks of the pieces on the board.
    pub open spec fn table_ok(self) -> bool {
        forall|i: int| 0 <= i < 32 ==> #[trigger] self.bits_match(i, self.occupied())
    }

    /// Well-formedness: consistent, with a correct attack table.
    pub open spec fn wf(self) -> bool {
        self.consistent() && self.table_ok()
    }

    /// True if slot `i` holds a king of `colour`.
    pub open spec fn is_king_of(self, i: int, colour: Colour) -> bool {
        self.live(i) && self.kind(i) == Some(Piece::King) && colour_of_index(i) == colour
    }

    /// True if `colour` has a king on the board.
    pub open spec fn has_king(self, colour: Colour) -> bool {
        exists|i: int| #[trigger] self.is_king_of(i, colour)
    }

    /// The lowest slot holding a king of `colour`.
    pub open spec fn king_slot(self, colour: Colour) -> int {
        choose|i: int| #[trigger]
            self.is_king_of(i, colour) && forall|j: int| 0 <= j < i ==> !self.is_king_of(j, colour)
    }

    /// Create a new, empty board.
    pub fn new() -> (r: BoardData)
        ensures
            r.wf(),
            forall|s: int| 0 <= s < 64 ==> #[trigger] r.slot_at(s) is None,
            forall|i: int| !#[trigger] r.live(i),
    {
        let r = BoardData {
            bitlist: BitlistArray::new(),
            piecelist: Piecelist::new(),
            index: PieceIndexArray::new(),
            piecemask: Piecemask::new(),
        };
        proof {
            assert forall|i: int| 0 <= i < 32 implies #[trigger] r.bits_match(i, r.occupied()) by {
                assert forall|t: int| 0 <= t < 64 implies !#[trigger] r.attacked(t, i) by {
                    lemma_bit_ops(0, 0, i as u32);
                }
            }
        }
        r
    }

    /// Borrow the internal attack table.
    pub fn attacks(&self) -> (r: &BitlistArray)
        ensures
            forall|t: int, i: int| 0 <= t < 64 ==> (r@[t].has(i) <==> self.attacked(t, i)),
    {
        &self.bitlist
    }

    /// Borrow the internal piece mask.
    pub fn piecemask(&self) -> (r: &Piecemask)
        ensures
            *r == self.mask(),
            forall|i: int| 0 <= i < 32 ==> r.slot(i) == self.kind(i),
    {
        &self.piecemask
    }

    /// Return the piece index on a square, if any.
    pub fn piece_index(&self, square: Square) -> (r: Option<PieceIndex>)
        ensures
            match r {
                Some(p) => self.slot_at(square.index()) == Some(p.index()),
                None => self.slot_at(square.index()) is None,
            },
    {
        self.index.get(square)
    }

    /// Return the attacks to a square by a colour.
    pub fn attacks_to(&self, square: Square, colour: Colour) -> (r: Bitlist)
        ensures
            forall|i: int|
                r.has(i) <==> (self.attacked(square.index(), i) && 0 <= i < 32 && colour_of_index(i)
                    == colour),
    {
        let r = self.bitlist.get(square).and(Bitlist::mask_from_colour(colour));
        proof {
            assert forall|i: int|
                r.has(i) <==> (self.attacked(square.index(), i) && 0 <= i < 32 && colour_of_index(
                    i,
                ) == colour) by {
                if 0 <= i < 32 {
                    Bitlist::lemma_colour_bits(colour, i);
                }
            }
        }
        r
    }

    /// Return the square a piece resides on.
    pub fn square_of_piece(&self, bit: PieceIndex) -> (r: Square)
        ensures
            r.index() == self.sq_of(bit.index()),
    {
        self.piecelist.get(bit)
    }

    /// True if the square has a piece on it.
    pub fn has_piece(&self, square: Square) -> (r: bool)
        ensures
            r == self.slot_at(square.index()) is Some,
            r == (self.occupied())(square.index()),
    {
        self.index.get(square).is_some()
    }

    /// Return the square of the king of a given colour.
    pub fn king_square(&self, colour: Colour) -> (r: Square)
        requires
            self.consistent(),
            self.has_king(colour),
        ensures
            self.is_king_of(self.king_slot(colour), colour),
            r.index() == self.sq_of(self.king_slot(colour)),
            self.slot_at(r.index()) == Some(self.king_slot(colour)),
    {
        let kings = self.piecemask.kings().and(Bitlist::mask_from_colour(colour));
        proof {
            let w = choose|i: int| #[trigger] self.is_king_of(i, colour);
            Bitlist::lemma_colour_bits(colour, w);
            assert(kings.has(w));
            lemma_bit_ops(0, 0, w as u32);
            assert(kings@ != 0);
            assert forall|i: int| 0 <= i < 32 implies kings.has(i) == self.is_king_of(i, colour) by {
                Bitlist::lemma_colour_bits(colour, i);
            }
        }
        let k = match kings.peek() {
            Some(k) => k,
            None => PieceIndex::new_unchecked(0),
        };
        proof {
            let ki = k.index();
            assert(kings.has(ki));
            assert(self.is_king_of(ki, colour));
            assert forall|j: int| 0 <= j < ki implies !self.is_king_of(j, colour) by {
                assert(!kings.has(j));
            }
            let c = self.king_slot(colour);
            if c != ki {
                if c < ki {
                    assert(!self.is_king_of(c, colour));
                } else {
                    assert(!self.is_king_of(ki, colour));
                }
            }
        }
        self.square_of_piece(k)
    }

    /// Given a piece index, return its piece type.
    pub fn piece_from_bit(&self, bit: PieceIndex) -> (r: Piece)
        requires
            self.kind(bit.index()) is Some,
        ensures
            self.kind(bit.index()) == Some(r),
    {
        match self.piecemask.piece(bit) {
            Some(piece) => piece,
            None => Piece::Pawn,
        }
    }

    /// Given a square, return the piece type of it, if any.
    pub fn piece_from_square(&self, square: Square) -> (r: Option<Piece>)
        requires
            self.consistent(),
        ensures
            r == match self.piece_on(square.index()) {
                Some(pc) => Some(pc.0),
                None => None,
            },
    {
        match self.index.get(square) {
            Some(p) => self.piecemask.piece(p),
            None => None,
        }
    }

    /// Given a square, return the colour of the piece on it, if any.
    pub fn colour_from_square(&self, square: Square) -> (r: Option<Colour>)
        ensures
            r == match self.slot_at(square.index()) {
                Some(i) => Some(colour_of_index(i)),
                None => None,
            },
    {
        match self.index.get(square) {
            Some(p) => Some(p.colour()),
            None => None,
        }
    }

    /// Record that slot `bit` on `square` attacks the square one step along `dir`, if any.
    fn leap(&mut self, square: Square, bit: PieceIndex, dir: Direction)
        requires
            step(square.index(), dir) matches Some(t) ==> !old(self).attacked(t, bit.index()),
        ensures
            final(self).index == old(self).index,
            final(self).piecelist == old(self).piecelist,
            final(self).piecemask == old(self).piecemask,
            forall|t: int, i: int|
                0 <= t < 64 ==> (#[trigger] final(self).attacked(t, i) <==> (old(self).attacked(t, i)
                    || (i == bit.index() && step(square.index(), dir) == Some(t)))),
    {
        match square.travel(dir) {
            Some(dest) => {
                self.bitlist.add_piece(dest, bit);
            },
            None => {},
        }
    }

    /// Set (or, for `add == false`, clear) the attack bit of slot `bit` on the squares along
    /// `dir` from `square`, up to and including the first occupied one.
    fn walk_ray(&mut self, square: Square, bit: PieceIndex, dir: Direction, add: bool)
        requires
            is_queen_dir(dir),
            forall|t: int|
                0 <= t < 64 && direction_between(square.index(), t) == Some(dir) && clear_ray(
                    square.index(),
                    dir,
                    dist(square.index(), t),
                    old(self).occupied(),
                ) ==> old(self).attacked(t, bit.index()) != add,
        ensures
            final(self).index == old(self).index,
            final(self).piecelist == old(self).piecelist,
            final(self).piecemask == old(self).piecemask,
            forall|t: int, i: int|
                0 <= t < 64 ==> (#[trigger] final(self).attacked(t, i) <==> if i == bit.index()
                    && direction_between(square.index(), t) == Some(dir) && clear_ray(
                    square.index(),
                    dir,
                    dist(square.index(), t),
                    old(self).occupied(),
                ) {
                    add
                } else {
                    old(self).attacked(t, i)
                }),
    {
        let ghost occ = self.occupied();
        let ghost from = square.index();
        let mut sq = square.travel(dir);
        let ghost mut n: int = 1;
        proof {
            lemma_ray_step(from, dir, 0);
        }
        loop
            invariant_except_break
                1 <= n <= 8,
                self.index == old(self).index,
                self.piecelist == old(self).piecelist,
                self.piecemask == old(self).piecemask,
                is_queen_dir(dir),
                from == square.index(),
                occ == old(self).occupied(),
                sq matches Some(s) ==> ray_on(from, dir, n) && s.index() == ray_sq(from, dir, n)
                    && clear_ray(from, dir, n, occ),
                sq is None ==> !ray_on(from, dir, n) || (n >= 2 && occ(ray_sq(from, dir, n - 1))),
                forall|j: int| 1 <= j < n ==> #[trigger] ray_on(from, dir, j) && clear_ray(from, dir, j, occ),
                forall|t: int, i: int|
                    0 <= t < 64 ==> (#[trigger] self.attacked(t, i) <==> if i == bit.index() && exists|j: int|
                        1 <= j < n && t == ray_sq(from, dir, j) {
                        add
                    } else {
                        old(self).attacked(t, i)
                    }),
                forall|t: int|
                    0 <= t < 64 && direction_between(from, t) == Some(dir) && clear_ray(
                        from,
                        dir,
                        dist(from, t),
                        occ,
                    ) ==> old(self).attacked(t, bit.index()) != add,
            ensures
                self.index == old(self).index,
                self.piecelist == old(self).piecelist,
                self.piecemask == old(self).piecemask,
                1 <= n <= 8,
                !ray_on(from, dir, n) || (n >= 2 && occ(ray_sq(from, dir, n - 1))),
                forall|j: int| 1 <= j < n ==> #[trigger] ray_on(from, dir, j) && clear_ray(from, dir, j, occ),
                forall|t: int, i: int|
                    0 <= t < 64 ==> (#[trigger] self.attacked(t, i) <==> if i == bit.index() && exists|j: int|
                        1 <= j < n && t == ray_sq(from, dir, j) {
                        add
                    } else {
                        old(self).attacked(t, i)
                    }),
            decreases 8 - n,
        {
            match sq {
                None => break,
                Some(s) => {
                    proof {
                        lemma_ray_geometry(from, dir, n);
                        assert(old(self).attacked(s.index(), bit.index()) != add);
                        assert(self.attacked(s.index(), bit.index()) == old(self).attacked(
                            s.index(),
                            bit.index(),
                        )) by {
                            if exists|j: int| 1 <= j < n && s.index() == ray_sq(from, dir, j) {
                                let j = choose|j: int| 1 <= j < n && s.index() == ray_sq(from, dir, j);
                                lemma_ray_injective(from, dir, j, n);
                            }
                        }
                    }
                    let ghost prev = *self;
                    if add {
                        self.bitlist.add_piece(s, bit);
                    } else {
                        self.bitlist.remove_piece(s, bit);
                    }
                    let blocked = self.index.get(s).is_some();
                    proof {
                        lemma_ray_step(from, dir, n);
                    }
                    sq = if blocked {
                        None
                    } else {
                        s.travel(dir)
                    };
                    proof {
                        assert forall|t: int, i: int| 0 <= t < 64 implies (#[trigger] self.attacked(t, i)
                            <==> if i == bit.index() && exists|j: int|
                            1 <= j < n + 1 && t == ray_sq(from, dir, j) {
                            add
                        } else {
                            old(self).attacked(t, i)
                        }) by {
                            if t == s.index() {
                                if i == bit.index() {
                                    assert(self.attacked(t, i) == add);
                                    assert(1 <= n < n + 1 && t == ray_sq(from, dir, n));
                                } else {
                                    assert(self.attacked(t, i) == prev.attacked(t, i));
                                    assert(self.attacked(t, i) == old(self).attacked(t, i));
                                }
                            } else {
                                assert(self.attacked(t, i) == prev.attacked(t, i));
                                if i == bit.index() && exists|j: int|
                                    1 <= j < n + 1 && t == ray_sq(from, dir, j) {
                                    let j = choose|j: int| 1 <= j < n + 1 && t == ray_sq(from, dir, j);
                                    assert(j != n);
                                    assert(1 <= j < n && t == ray_sq(from, dir, j));
                                }
                            }
                        }
                        if !blocked {
                            assert forall|j: int| 1 <= j < n + 1 implies !occ(
                                #[trigger] ray_sq(from, dir, j),
                            ) by {}
                        }
                        n = n + 1;
                    }
                },
            }
        }
        proof {
            assert forall|t: int| 0 <= t < 64 implies ((exists|j: int|
                1 <= j < n && t == ray_sq(from, dir, j)) <==> (direction_between(from, t) == Some(dir)
                && clear_ray(from, dir, dist(from, t), occ))) by {
                if exists|j: int| 1 <= j < n && t == ray_sq(from, dir, j) {
                    let j = choose|j: int| 1 <= j < n && t == ray_sq(from, dir, j);
                    assert(1 <= j < n);
                    assert(ray_on(from, dir, j));
                    assert(clear_ray(from, dir, j, occ));
                    lemma_ray_geometry(from, dir, j);
                }
                if direction_between(from, t) == Some(dir) && clear_ray(from, dir, dist(from, t), occ) {
                    lemma_direction_ray(from, t);
                    let m = dist(from, t);
                    if m >= n {
                        assert(ray_on(from, dir, n));
                        assert(n >= 2 && occ(ray_sq(from, dir, n - 1)));
                        assert(1 <= n - 1 < m);
                        assert(!occ(ray_sq(from, dir, n - 1)));
                    }
                    assert(1 <= m < n && t == ray_sq(from, dir, m));
                }
            }
        }
    }

    /// Record that slot `bit` on `square` attacks the squares along `dir` up to and including
    /// the first occupied one.
    fn slide(&mut self, square: Square, bit: PieceIndex, dir: Direction)
        requires
            is_queen_dir(dir),
            forall|t: int|
                0 <= t < 64 && direction_between(square.index(), t) == Some(dir) ==> !old(
                    self,
                ).attacked(t, bit.index()),
        ensures
            final(self).index == old(self).index,
            final(self).piecelist == old(self).piecelist,
            final(self).piecemask == old(self).piecemask,
            forall|t: int, i: int|
                0 <= t < 64 ==> (#[trigger] final(self).attacked(t, i) <==> (old(self).attacked(t, i)
                    || (i == bit.index() && direction_between(square.index(), t) == Some(dir)
                    && clear_ray(square.index(), dir, dist(square.index(), t), old(self).occupied())))),
    {
        self.walk_ray(square, bit, dir, true);
    }

    /// Two boards with the same mailbox, piece list and piece mask are equally consistent.
    proof fn lemma_same_pieces(a: BoardData, b: BoardData)
        requires
            a.index == b.index,
            a.piecelist == b.piecelist,
            a.piecemask == b.piecemask,
        ensures
            a.consistent() == b.consistent(),
            a.occupied() == b.occupied(),
            forall|s: int| #[trigger] a.slot_at(s) == b.slot_at(s),
            forall|i: int| #[trigger] a.kind(i) == b.kind(i),
            forall|i: int| #[trigger] a.sq_of(i) == b.sq_of(i),
            forall|i: int| #[trigger] a.live(i) == b.live(i),
    {
        assert(a.occupied() == b.occupied());
        assert forall|i: int| #[trigger] a.live(i) == b.live(i) by {}
        if a.consistent() {
            assert forall|s: int| 0 <= s < 64 implies match #[trigger] b.slot_at(s) {
                Some(i) => b.live(i) && b.sq_of(i) == s,
                None => true,
            } by {
                assert(a.slot_at(s) == b.slot_at(s));
            }
            assert forall|i: int| #[trigger] b.live(i) implies b.slot_at(b.sq_of(i)) == Some(i) by {
                assert(a.live(i));
            }
        }
        if b.consistent() {
            assert forall|s: int| 0 <= s < 64 implies match #[trigger] a.slot_at(s) {
                Some(i) => a.live(i) && a.sq_of(i) == s,
                None => true,
            } by {
                assert(a.slot_at(s) == b.slot_at(s));
            }
            assert forall|i: int| #[trigger] a.live(i) implies a.slot_at(a.sq_of(i)) == Some(i) by {
                assert(b.live(i));
            }
        }
    }

    /// Record the attacks of a pawn.
    fn add_pawn_attacks(&mut self, square: Square, bit: PieceIndex)
        requires
            old(self).bits_empty(bit.index()),
        ensures
            final(self).index == old(self).index,
            final(self).piecelist == old(self).piecelist,
            final(self).piecemask == old(self).piecemask,
            forall|t: int, i: int|
                0 <= t < 64 ==> (#[trigger] final(self).attacked(t, i) <==> (old(self).attacked(t, i)
                    || (i == bit.index() && attacks(
                    Piece::Pawn,
                    colour_of_index(bit.index()),
                    square.index(),
                    t,
                    old(self).occupied(),
                )))),
    {
        if bit.is_white() {
            self.leap(square, bit, Direction::NorthEast);
            self.leap(square, bit, Direction::NorthWest);
        } else {
            self.leap(square, bit, Direction::SouthEast);
            self.leap(square, bit, Direction::SouthWest);
        }
    }

    /// Record the attacks of a knight.
    fn add_knight_attacks(&mut self, square: Square, bit: PieceIndex)
        requires
            old(self).bits_empty(bit.index()),
        ensures
            final(self).index == old(self).index,
            final(self).piecelist == old(self).piecelist,
            final(self).piecemask == old(self).piecemask,
            forall|t: int, i: int|
                0 <= t < 64 ==> (#[trigger] final(self).attacked(t, i) <==> (old(self).attacked(t, i)
                    || (i == bit.index() && attacks(
                    Piece::Knight,
                    colour_of_index(bit.index()),
                    square.index(),
                    t,
                    old(self).occupied(),
                )))),
    {
        self.leap(square, bit, Direction::NorthNorthEast);
        self.leap(square, bit, Direction::EastNorthEast);
        self.leap(square, bit, Direction::EastSouthEast);
        self.leap(square, bit, Direction::SouthSouthEast);
        self.leap(square, bit, Direction::SouthSouthWest);
        self.leap(square, bit, Direction::WestSouthWest);
        self.leap(square, bit, Direction::WestNorthWest);
        self.leap(square, bit, Direction::NorthNorthWest);
    }

    /// Record the attacks of a king.
    fn add_king_attacks(&mut self, square: Square, bit: PieceIndex)
        requires
            old(self).bits_empty(bit.index()),
        ensures
            final(self).index == old(self).index,
            final(self).piecelist == old(self).piecelist,
            final(self).piecemask == old(self).piecemask,
            forall|t: int, i: int|
                0 <= t < 64 ==> (#[trigger] final(self).attacked(t, i) <==> (old(self).attacked(t, i)
                    || (i == bit.index() && attacks(
                    Piece::King,
                    colour_of_index(bit.index()),
                    square.index(),
                    t,
                    old(self).occupied(),
                )))),
    {
        self.leap(square, bit, Direction::North);
        self.leap(square, bit, Direction::NorthEast);
        self.leap(square, bit, Direction::East);
        self.leap(square, bit, Direction::SouthEast);
        self.leap(square, bit, Direction::South);
        self.leap(square, bit, Direction::SouthWest);
        self.leap(square, bit, Direction::West);
        self.leap(square, bit, Direction::NorthWest);
    }

    /// Record the diagonal slides of a bishop or queen.
    fn add_diagonal_attacks(&mut self, square: Square, bit: PieceIndex)
        requires
            forall|t: int|
                0 <= t < 64 && #[trigger] along(square.index(), t, true) ==> !old(self).attacked(
                    t,
                    bit.index(),
                ),
        ensures
            final(self).index == old(self).index,
            final(self).piecelist == old(self).piecelist,
            final(self).piecemask == old(self).piecemask,
            forall|t: int, i: int|
                0 <= t < 64 ==> (#[trigger] final(self).attacked(t, i) <==> (old(self).attacked(t, i)
                    || (i == bit.index() && line_clear(
                    square.index(),
                    t,
                    true,
                    old(self).occupied(),
                )))),
    {
        proof {
            assert forall|t: int|
                0 <= t < 64 && direction_between(square.index(), t) == Some(Direction::NorthEast) implies !self.attacked(
                t,
                bit.index(),
            ) by {
                assert(along(square.index(), t, true));
            }
        }
        self.slide(square, bit, Direction::NorthEast);
        proof {
            assert forall|t: int|
                0 <= t < 64 && direction_between(square.index(), t) == Some(Direction::SouthEast) implies !self.attacked(
                t,
                bit.index(),
            ) by {
                assert(along(square.index(), t, true));
            }
        }
        self.slide(square, bit, Direction::SouthEast);
        proof {
            assert forall|t: int|
                0 <= t < 64 && direction_between(square.index(), t) == Some(Direction::SouthWest) implies !self.attacked(
                t,
                bit.index(),
            ) by {
                assert(along(square.index(), t, true));
            }
        }
        self.slide(square, bit, Direction::SouthWest);
        proof {
            assert forall|t: int|
                0 <= t < 64 && direction_between(square.index(), t) == Some(Direction::NorthWest) implies !self.attacked(
                t,
                bit.index(),
            ) by {
                assert(along(square.index(), t, true));
            }
        }
        self.slide(square, bit, Direction::NorthWest);
    }

    /// Record the orthogonal slides of a rook or queen.
    fn add_orthogonal_attacks(&mut self, square: Square, bit: PieceIndex)
        requires
            forall|t: int|
                0 <= t < 64 && #[trigger] along(square.index(), t, false) ==> !old(self).attacked(
                    t,
                    bit.index(),
                ),
        ensures
            final(self).index == old(self).index,
            final(self).piecelist == old(self).piecelist,
            final(self).piecemask == old(self).piecemask,
            forall|t: int, i: int|
                0 <= t < 64 ==> (#[trigger] final(self).attacked(t, i) <==> (old(self).attacked(t, i)
                    || (i == bit.index() && line_clear(
                    square.index(),
                    t,
                    false,
                    old(self).occupied(),
                )))),
    {
        proof {
            assert forall|t: int|
                0 <= t < 64 && direction_between(square.index(), t) == Some(Direction::North) implies !self.attacked(
                t,
                bit.index(),
            ) by {
                assert(along(square.index(), t, false));
            }
        }
        self.slide(square, bit, Direction::North);
        proof {
            assert forall|t: int|
                0 <= t < 64 && direction_between(square.index(), t) == Some(Direction::East) implies !self.attacked(
                t,
                bit.index(),
            ) by {
                assert(along(square.index(), t, false));
            }
        }
        self.slide(square, bit, Direction::East);
        proof {
            assert forall|t: int|
                0 <= t < 64 && direction_between(square.index(), t) == Some(Direction::South) implies !self.attacked(
                t,
                bit.index(),
            ) by {
                assert(along(square.index(), t, false));
            }
        }
        self.slide(square, bit, Direction::South);
        proof {
            assert forall|t: int|
                0 <= t < 64 && direction_between(square.index(), t) == Some(Direction::West) implies !self.attacked(
                t,
                bit.index(),
            ) by {
                assert(along(square.index(), t, false));
            }
        }
        self.slide(square, bit, Direction::West);
    }

    /// Record the attacks of slot `bit`, a `piece` standing on `square`.
    fn add_attacks(&mut self, square: Square, bit: PieceIndex, piece: Piece)
        requires
            old(self).bits_empty(bit.index()),
        ensures
            final(self).index == old(self).index,
            final(self).piecelist == old(self).piecelist,
            final(self).piecemask == old(self).piecemask,
            forall|t: int, i: int|
                0 <= t < 64 ==> (#[trigger] final(self).attacked(t, i) <==> (old(self).attacked(t, i)
                    || (i == bit.index() && attacks(
                    piece,
                    colour_of_index(bit.index()),
                    square.index(),
                    t,
                    old(self).occupied(),
                )))),
    {
        if piece == Piece::Pawn {
            self.add_pawn_attacks(square, bit);
            return;
        }
        if piece == Piece::Knight {
            self.add_knight_attacks(square, bit);
            return;
        }
        if piece == Piece::King {
            self.add_king_attacks(square, bit);
            return;
        }
        let ghost start = *self;
        if piece == Piece::Bishop || piece == Piece::Queen {
            self.add_diagonal_attacks(square, bit);
            if piece == Piece::Bishop {
                return;
            }
        }
        let ghost mid = *self;
        proof {
            assert forall|t: int|
                0 <= t < 64 && #[trigger] along(square.index(), t, false) implies !self.attacked(
                    t,
                    bit.index(),
                ) by {}
        }
        self.add_orthogonal_attacks(square, bit);
        proof {
            Self::lemma_same_pieces(start, *self);
            assert forall|t: int, i: int| 0 <= t < 64 implies (#[trigger] self.attacked(t, i) <==> (
            start.attacked(t, i) || (i == bit.index() && attacks(
                piece,
                colour_of_index(bit.index()),
                square.index(),
                t,
                start.occupied(),
            )))) by {}
        }
    }

    /// Rebuild the attack table from the mailbox.
    pub fn rebuild_attacks(&mut self)
        requires
            old(self).consistent(),
        ensures
            final(self).wf(),
            forall|s: int| 0 <= s < 64 ==> #[trigger] final(self).slot_at(s) == old(self).slot_at(s),
            forall|i: int| 0 <= i < 32 ==> #[trigger] final(self).kind(i) == old(self).kind(i),
            forall|i: int| 0 <= i < 32 ==> #[trigger] final(self).sq_of(i) == old(self).sq_of(i),
            final(self).mask() == old(self).mask(),
    {
        let mut square: u8 = 0;
        while square < 64
            invariant
                square <= 64,
                self.index == old(self).index,
                self.piecelist == old(self).piecelist,
                self.piecemask == old(self).piecemask,
                forall|t: int, i: int| 0 <= t < square ==> !#[trigger] self.attacked(t, i),
            decreases 64 - square,
        {
            let index = Square::from_u8_unchecked(square);
            let ghost prev = *self;
            self.bitlist.clear(index);
            proof {
                assert forall|t: int, i: int| 0 <= t < square + 1 implies !#[trigger] self.attacked(
                    t,
                    i,
                ) by {
                    if t == square {
                        if 0 <= i < 32 {
                            lemma_bit_ops(0, 0, i as u32);
                        }
                    } else {
                        assert(self.attacked(t, i) == prev.attacked(t, i));
                    }
                }
            }
            square = square + 1;
        }
        proof {
            Self::lemma_same_pieces(*old(self), *self);
        }
        let ghost occ = self.occupied();
        let mut square: u8 = 0;
        while square < 64
            invariant
                square <= 64,
                self.index == old(self).index,
                self.piecelist == old(self).piecelist,
                self.piecemask == old(self).piecemask,
                occ == self.occupied(),
                self.consistent(),
                forall|t: int, i: int|
                    0 <= t < 64 ==> (#[trigger] self.attacked(t, i) <==> (self.live(i) && self.sq_of(
                        i,
                    ) < square && self.piece_attacks(i, t, occ))),
            decreases 64 - square,
        {
            let sq = Square::from_u8_unchecked(square);
            match self.index.get(sq) {
                Some(bit) => {
                    let piece = self.piece_from_bit(bit);
                    proof {
                        assert(self.slot_at(square as int) == Some(bit.index()));
                        assert forall|t: int| 0 <= t < 64 implies !#[trigger] self.attacked(
                            t,
                            bit.index(),
                        ) by {}
                    }
                    let ghost prev = *self;
                    self.add_attacks(sq, bit, piece);
                    proof {
                        Self::lemma_same_pieces(prev, *self);
                        assert forall|t: int, i: int| 0 <= t < 64 implies (#[trigger] self.attacked(
                            t,
                            i,
                        ) <==> (self.live(i) && self.sq_of(i) < square + 1 && self.piece_attacks(
                            i,
                            t,
                            occ,
                        ))) by {
                            if self.live(i) && self.sq_of(i) == square {
                                assert(self.slot_at(square as int) == Some(i));
                            }
                        }
                    }
                },
                None => {
                    proof {
                        assert forall|t: int, i: int| 0 <= t < 64 implies (#[trigger] self.attacked(
                            t,
                            i,
                        ) <==> (self.live(i) && self.sq_of(i) < square + 1 && self.piece_attacks(
                            i,
                            t,
                            occ,
                        ))) by {
                            if self.live(i) && self.sq_of(i) == square {
                                assert(self.slot_at(square as int) == Some(i));
                            }
                        }
                    }
                },
            }
            square = square + 1;
        }
        proof {
            assert forall|i: int| 0 <= i < 32 implies #[trigger] self.bits_match(i, self.occupied()) by {
                assert forall|t: int| 0 <= t < 64 implies (#[trigger] self.attacked(t, i)
                    <==> self.piece_attacks(i, t, self.occupied())) by {
                    if self.live(i) {
                        assert(self.slot_at(self.sq_of(i)) == Some(i));
                    }
                }
            }
        }
    }

    /// Remove every attack of slot `bit` from the table.
    fn remove_attacks(&mut self, bit: PieceIndex)
        ensures
            final(self).index == old(self).index,
            final(self).piecelist == old(self).piecelist,
            final(self).piecemask == old(self).piecemask,
            forall|t: int, i: int|
                0 <= t < 64 ==> (#[trigger] final(self).attacked(t, i) <==> (old(self).attacked(t, i)
                    && i != bit.index())),
    {
        let mut square: u8 = 0;
        while square < 64
            invariant
                square <= 64,
                self.index == old(self).index,
                self.piecelist == old(self).piecelist,
                self.piecemask == old(self).piecemask,
                forall|t: int, i: int|
                    0 <= t < 64 ==> (#[trigger] self.attacked(t, i) <==> (old(self).attacked(t, i) && (
                    t >= square || i != bit.index()))),
            decreases 64 - square,
        {
            let sq = Square::from_u8_unchecked(square);
            let ghost prev = *self;
            let present = self.bitlist.get(sq).contains(Bitlist::from_piece(bit));
            proof {
                lemma_contains_bit(prev.bitlist@[square as int]@, bit.index() as u32);
                assert(present == prev.attacked(square as int, bit.index()));
            }
            if present {
                self.bitlist.remove_piece(sq, bit);
            }
            proof {
                assert forall|t: int, i: int| 0 <= t < 64 implies (#[trigger] self.attacked(t, i) <==> (
                old(self).attacked(t, i) && (t >= square + 1 || i != bit.index()))) by {
                    if t != square {
                        assert(self.attacked(t, i) == prev.attacked(t, i));
                    } else if present {
                        assert(self.attacked(t, i) == (prev.attacked(t, i) && i != bit.index()));
                    } else {
                        assert(self.attacked(t, i) == prev.attacked(t, i));
                        assert(!prev.attacked(t, bit.index()));
                    }
                }
            }
            square = square + 1;
        }
    }

    /// After the occupancy of `square` changes from `occ_before` to `occ_after` (emptied when
    /// `add`, filled otherwise), extend or cut the rays of the sliders that attack `square`.
    /// Slot `skip`, if in range, has no attacks and is left alone.
    fn update_sliders(
        &mut self,
        square: Square,
        add: bool,
        Ghost(occ_before): Ghost<spec_fn(int) -> bool>,
        Ghost(occ_after): Ghost<spec_fn(int) -> bool>,
        Ghost(skip): Ghost<int>,
    )
        requires
            old(self).mask().wf(),
            forall|i: int| 0 <= i < 32 && i != skip ==> #[trigger] old(self).bits_match(i, occ_before),
            0 <= skip < 32 ==> old(self).bits_empty(skip),
            forall|s: int| #![trigger occ_before(s)] #![trigger occ_after(s)] 0 <= s < 64 && s != square.index() ==> occ_before(s) == occ_after(s),
            forall|s: int| 0 <= s < 64 && s != square.index() ==> (#[trigger] (old(self).occupied())(s)) == occ_after(s),
            occ_before(square.index()) == add,
            occ_after(square.index()) == !add,
        ensures
            final(self).index == old(self).index,
            final(self).piecelist == old(self).piecelist,
            final(self).piecemask == old(self).piecemask,
            forall|i: int| 0 <= i < 32 && i != skip ==> #[trigger] final(self).bits_match(i, occ_after),
            0 <= skip < 32 ==> final(self).bits_empty(skip),
    {
        let ghost q = square.index();
        let ghost occ_now = self.occupied();
        let ghost start = *self;
        let slider_mask = self.piecemask.bishops().or(self.piecemask.rooks()).or(self.piecemask.queens());
        let sliders = self.bitlist.get(square).and(slider_mask);
        let mut remaining = sliders;
        proof {
            Self::lemma_same_pieces(start, *self);
        }
        loop
            invariant
                self.index == old(self).index,
                self.piecelist == old(self).piecelist,
                self.piecemask == old(self).piecemask,
                start == *old(self),
                q == square.index(),
                occ_now == old(self).occupied(),
                forall|i: int| remaining.has(i) ==> sliders.has(i),
                forall|i: int|
                    sliders.has(i) <==> (old(self).attacked(q, i) && 0 <= i < 32 && (old(self).kind(i)
                        == Some(Piece::Bishop) || old(self).kind(i) == Some(Piece::Rook) || old(
                        self,
                    ).kind(i) == Some(Piece::Queen))),
                forall|i: int|
                    0 <= i < 32 && i != skip && sliders.has(i) && !remaining.has(i)
                        ==> #[trigger] self.bits_match(i, occ_after),
                forall|i: int|
                    0 <= i < 32 && i != skip && !(sliders.has(i) && !remaining.has(i))
                        ==> #[trigger] self.bits_match(i, occ_before),
                0 <= skip < 32 ==> self.bits_empty(skip),
                forall|i: int| 0 <= i < 32 && i != skip ==> #[trigger] old(self).bits_match(i, occ_before),
                0 <= skip < 32 ==> old(self).bits_empty(skip),
                forall|s: int| #![trigger occ_before(s)] #![trigger occ_after(s)] 0 <= s < 64 && s != square.index() ==> occ_before(s) == occ_after(s),
                forall|s: int| 0 <= s < 64 && s != square.index() ==> (#[trigger] (old(self).occupied())(s)) == occ_after(s),
                occ_before(square.index()) == add,
                occ_after(square.index()) == !add,
                old(self).mask().wf(),
            ensures
                remaining@ == 0,
            decreases popcount_of(remaining),
        {
            let ghost before_pop = remaining;
            match remaining.pop() {
                None => break,
                Some(piece) => {
                    let ghost pi = piece.index();
                    let ghost mid = *self;
                    proof {
                        assert(before_pop.has(pi));
                        assert(sliders.has(pi));
                        assert(old(self).attacked(q, pi));
                        if 0 <= skip < 32 {
                            assert(!old(self).attacked(q, skip));
                        }
                        assert(pi != skip);
                        assert(!(sliders.has(pi) && !before_pop.has(pi)));
                        assert(self.bits_match(pi, occ_before));
                        assert(old(self).bits_match(pi, occ_before));
                        assert(self.attacked(q, pi) == old(self).attacked(q, pi));
                    }
                    let attacker = self.square_of_piece(piece);
                    let ghost p = attacker.index();
                    proof {
                        assert(mid.attacked(q, pi));
                        assert(mid.piece_attacks(pi, q, occ_before));
                        assert(slider_attacks(mid.kind(pi).unwrap(), p, q, occ_before));
                    }
                    match attacker.direction(square) {
                        None => {
                            proof {
                                assert(false);
                            }
                        },
                        Some(direction) => {
                            proof {
                                lemma_direction_ray(p, q);
                                assert forall|t: int|
                                    0 <= t < 64 && direction_between(q, t) == Some(direction)
                                        && clear_ray(q, direction, dist(q, t), self.occupied())
                                        implies self.attacked(t, pi) != add by {
                                    assert(strictly_between(p, q, t));
                                    lemma_slider_through(mid.kind(pi).unwrap(), p, q, t, occ_before, occ_after);
                                    lemma_clear_ray_near(q, t, occ_now, occ_before);
                                    assert(mid.attacked(t, pi) == mid.piece_attacks(pi, t, occ_before));
                                }
                            }
                            self.walk_ray(square, piece, direction, add);
                            proof {
                                Self::lemma_same_pieces(mid, *self);
                                assert forall|t: int| 0 <= t < 64 implies (#[trigger] self.attacked(t, pi)
                                    <==> self.piece_attacks(pi, t, occ_after)) by {
                                    lemma_slider_through(mid.kind(pi).unwrap(), p, q, t, occ_before, occ_after);
                                    assert(mid.attacked(t, pi) == mid.piece_attacks(pi, t, occ_before));
                                    if strictly_between(p, q, t) {
                                        lemma_clear_ray_near(q, t, occ_now, occ_before);
                                    }
                                }
                                assert(self.bits_match(pi, occ_after));
                                assert forall|i: int| 0 <= i < 32 && i != skip && i != pi implies
                                    #[trigger] self.bits_match(i, occ_after) == mid.bits_match(i, occ_after) by {
                                    assert forall|t: int| 0 <= t < 64 implies self.attacked(t, i)
                                        == mid.attacked(t, i) by {}
                                }
                                assert forall|i: int| 0 <= i < 32 && i != skip && i != pi implies
                                    #[trigger] self.bits_match(i, occ_before) == mid.bits_match(i, occ_before) by {
                                    assert forall|t: int| 0 <= t < 64 implies self.attacked(t, i)
                                        == mid.attacked(t, i) by {}
                                }
                                assert forall|i: int|
                                    0 <= i < 32 && i != skip && sliders.has(i) && !remaining.has(i)
                                        implies #[trigger] self.bits_match(i, occ_after) by {
                                    if i != pi {
                                        assert(remaining.has(i) == before_pop.has(i));
                                        assert(mid.bits_match(i, occ_after));
                                    }
                                }
                                assert forall|i: int|
                                    0 <= i < 32 && i != skip && !(sliders.has(i) && !remaining.has(i))
                                        implies #[trigger] self.bits_match(i, occ_before) by {
                                    assert(i != pi);
                                    assert(remaining.has(i) == before_pop.has(i));
                                    assert(mid.bits_match(i, occ_before));
                                }
                                if 0 <= skip < 32 {
                                    assert forall|t: int| 0 <= t < 64 implies !#[trigger] self.attacked(t, skip) by {
                                        assert(self.attacked(t, skip) == mid.attacked(t, skip));
                                    }
                                }
                            }
                        },
                    }
                },
            }
        }
        proof {
            Bitlist::lemma_empty(remaining);
            Self::lemma_same_pieces(start, *self);
            assert forall|i: int| 0 <= i < 32 && i != skip implies #[trigger] self.bits_match(i, occ_after) by {
                if sliders.has(i) {
                    assert(!remaining.has(i));
                } else {
                    assert(self.bits_match(i, occ_before));
                    assert forall|t: int| 0 <= t < 64 implies (#[trigger] self.attacked(t, i)
                        <==> self.piece_attacks(i, t, occ_after)) by {
                        assert(self.attacked(t, i) == self.piece_attacks(i, t, occ_before));
                        if self.live(i) {
                            let kind = self.kind(i).unwrap();
                            if kind == Piece::Bishop || kind == Piece::Rook || kind == Piece::Queen {
                                lemma_slider_through(kind, self.sq_of(i), q, t, occ_before, occ_after);
                                assert(!start.attacked(q, i));
                                assert(start.bits_match(i, occ_before));
                                assert(!start.piece_attacks(i, q, occ_before));
                                assert(start.kind(i) == Some(kind));
                                assert(!slider_attacks(kind, self.sq_of(i), q, occ_before));
                            }
                        }
                    }
                }
            }
        }
    }

    /// Attacks of a piece never look at the occupancy of its own square.
    pub proof fn lemma_own_square(
        piece: Piece,
        colour: Colour,
        from: int,
        t: int,
        occ1: spec_fn(int) -> bool,
        occ2: spec_fn(int) -> bool,
    )
        requires
            0 <= from < 64,
            0 <= t < 64,
            forall|s: int| #![trigger occ1(s)] #![trigger occ2(s)] 0 <= s < 64 && s != from ==> occ1(s) == occ2(s),
        ensures
            attacks(piece, colour, from, t, occ1) == attacks(piece, colour, from, t, occ2),
    {
        match direction_between(from, t) {
            Some(d) => {
                lemma_clear_ray_near(from, t, occ1, occ2);
            },
            None => {},
        }
    }

    /// Add a `piece` of `colour` to the empty `square`, in the lowest free slot of that colour.
    /// With `update`, the attack table is updated too.
    pub fn add_piece(&mut self, piece: Piece, colour: Colour, square: Square, update: bool)
        requires
            old(self).consistent(),
            update ==> old(self).table_ok(),
            old(self).slot_at(square.index()) is None,
            exists|i: int| 0 <= i < 32 && colour_of_index(i) == colour && !#[trigger] old(self).live(i),
        ensures
            final(self).consistent(),
            update ==> final(self).table_ok(),
            forall|s: int|
                0 <= s < 64 ==> #[trigger] final(self).piece_on(s) == if s == square.index() {
                    Some((piece, colour))
                } else {
                    old(self).piece_on(s)
                },
            forall|i: int|
                #[trigger] old(self).live(i) ==> final(self).live(i) && final(self).kind(i) == old(
                    self,
                ).kind(i) && final(self).sq_of(i) == old(self).sq_of(i),
            forall|i: int|
                #[trigger] final(self).live(i) && !old(self).live(i) ==> final(self).sq_of(i)
                    == square.index() && final(self).kind(i) == Some(piece) && colour_of_index(i)
                    == colour && forall|j: int|
                    0 <= j < i && colour_of_index(j) == colour ==> #[trigger] old(self).live(j),
            exists|i: int| #[trigger] final(self).live(i) && !old(self).live(i),
    {
        let ghost occ_old = self.occupied();
        let ghost start = *self;
        proof {
            let w = choose|i: int| 0 <= i < 32 && colour_of_index(i) == colour && !#[trigger] self.live(i);
            self.piecemask.lemma_code_range(w);
            assert(self.piecemask.code(w) == 0);
        }
        let piece_index = self.piecemask.add_piece(piece, colour);
        let ghost b = piece_index.index();
        proof {
            assert(!start.live(b)) by {
                start.piecemask.lemma_code_range(b);
            }
        }
        self.piecelist.add_piece(piece_index, square);
        self.index.add_piece(piece_index, square);
        let ghost q = square.index();
        proof {
            assert forall|i: int| 0 <= i < 32 && i != b implies #[trigger] self.kind(i) == start.kind(i)
                && self.sq_of(i) == start.sq_of(i) by {}
            assert(self.kind(b) == Some(piece));
            assert forall|s: int|
                0 <= s < 64 implies match #[trigger] self.slot_at(s) {
                    Some(i) => self.live(i) && self.sq_of(i) == s,
                    None => true,
                } by {
                if s != q {
                    assert(self.slot_at(s) == start.slot_at(s));
                    if let Some(i) = start.slot_at(s) {
                        assert(start.live(i));
                        assert(i != b);
                    }
                }
            }
            assert forall|i: int| #[trigger] self.live(i) implies self.slot_at(self.sq_of(i)) == Some(i) by {
                if i != b {
                    assert(start.live(i));
                    assert(start.slot_at(start.sq_of(i)) == Some(i));
                    assert(start.sq_of(i) != q);
                }
            }
            assert forall|s: int| 0 <= s < 64 implies #[trigger] self.piece_on(s) == if s == q {
                Some((piece, colour))
            } else {
                start.piece_on(s)
            } by {
                if s != q {
                    if let Some(i) = start.slot_at(s) {
                        assert(start.live(i));
                        assert(i != b);
                    }
                }
            }
            assert forall|j: int| 0 <= j < b && colour_of_index(j) == colour implies #[trigger] start.live(
                j,
            ) by {
                start.piecemask.lemma_code_range(j);
            }
            assert(self.live(b) && !start.live(b));
        }
        if update {
            let ghost occ_new = self.occupied();
            let ghost mid = *self;
            proof {
                assert forall|t: int| 0 <= t < 64 implies !#[trigger] self.attacked(t, b) by {
                    assert(start.bits_match(b, occ_old));
                    assert(start.attacked(t, b) == start.piece_attacks(b, t, occ_old));
                    assert(self.attacked(t, b) == start.attacked(t, b));
                }
            }
            self.add_attacks(square, piece_index, piece);
            proof {
                Self::lemma_same_pieces(mid, *self);
                assert forall|i: int| 0 <= i < 32 implies #[trigger] self.bits_match(i, occ_old) by {
                    if i == b {
                        assert forall|t: int| 0 <= t < 64 implies (#[trigger] self.attacked(t, i)
                            <==> self.piece_attacks(i, t, occ_old)) by {
                            Self::lemma_own_square(piece, colour, q, t, occ_old, occ_new);
                        }
                    } else {
                        assert(start.bits_match(i, occ_old));
                        assert forall|t: int| 0 <= t < 64 implies (#[trigger] self.attacked(t, i)
                            <==> self.piece_attacks(i, t, occ_old)) by {
                            assert(start.attacked(t, i) == start.piece_attacks(i, t, occ_old));
                            if start.live(i) {
                                assert(self.live(i));
                            }
                        }
                    }
                }
            }
            self.update_sliders(square, false, Ghost(occ_old), Ghost(occ_new), Ghost(-1int));
            proof {
                Self::lemma_same_pieces(mid, *self);
                assert(self.occupied() == occ_new);
            }
        }
    }

    /// Remove the piece of slot `piece_index` from the board. With `update`, the attack table is
    /// updated too.
    pub fn remove_piece(&mut self, piece_index: PieceIndex, update: bool)
        requires
            old(self).consistent(),
            update ==> old(self).table_ok(),
            old(self).live(piece_index.index()),
        ensures
            final(self).consistent(),
            update ==> final(self).table_ok(),
            forall|s: int|
                0 <= s < 64 ==> #[trigger] final(self).piece_on(s) == if s == old(self).sq_of(
                    piece_index.index(),
                ) {
                    None
                } else {
                    old(self).piece_on(s)
                },
            !final(self).live(piece_index.index()),
            forall|i: int|
                #[trigger] old(self).live(i) && i != piece_index.index() ==> final(self).live(i)
                    && final(self).kind(i) == old(self).kind(i) && final(self).sq_of(i) == old(
                    self,
                ).sq_of(i),
            forall|i: int| #[trigger] final(self).live(i) ==> old(self).live(i),
    {
        let ghost occ_old = self.occupied();
        let ghost start = *self;
        let ghost b = piece_index.index();
        let square = self.square_of_piece(piece_index);
        let piece = self.piece_from_bit(piece_index);
        let ghost q = square.index();
        proof {
            self.piecemask.lemma_code_range(b);
        }
        self.piecemask.remove_piece(piece_index);
        proof {
            assert(start.slot_at(q) == Some(b));
        }
        self.index.remove_piece(piece_index, square);
        proof {
            assert(start.slot_at(q) == Some(b));
            assert forall|i: int| 0 <= i < 32 && i != b implies #[trigger] self.kind(i) == start.kind(i)
                && self.sq_of(i) == start.sq_of(i) by {}
            assert(self.kind(b) is None) by {
                self.piecemask.lemma_code_range(b);
            }
            assert forall|s: int|
                0 <= s < 64 implies match #[trigger] self.slot_at(s) {
                    Some(i) => self.live(i) && self.sq_of(i) == s,
                    None => true,
                } by {
                if s != q {
                    assert(self.slot_at(s) == start.slot_at(s));
                    if let Some(i) = start.slot_at(s) {
                        assert(start.live(i));
                        assert(i != b);
                    }
                }
            }
            assert forall|i: int| #[trigger] self.live(i) implies self.slot_at(self.sq_of(i)) == Some(i) by {
                assert(i != b);
                assert(start.live(i));
                assert(start.slot_at(start.sq_of(i)) == Some(i));
                assert(start.sq_of(i) != q);
            }
            assert forall|s: int| 0 <= s < 64 implies #[trigger] self.piece_on(s) == if s == q {
                None
            } else {
                start.piece_on(s)
            } by {
                if s != q {
                    if let Some(i) = start.slot_at(s) {
                        assert(start.live(i));
                        assert(i != b);
                    }
                }
            }
        }
        if update {
            let ghost occ_new = self.occupied();
            let ghost mid = *self;
            self.remove_attacks(piece_index);
            proof {
                Self::lemma_same_pieces(mid, *self);
                assert forall|i: int| 0 <= i < 32 implies #[trigger] self.bits_match(i, occ_old) by {
                    if i != b {
                        assert(start.bits_match(i, occ_old));
                        assert forall|t: int| 0 <= t < 64 implies (#[trigger] self.attacked(t, i)
                            <==> self.piece_attacks(i, t, occ_old)) by {
                            assert(start.attacked(t, i) == start.piece_attacks(i, t, occ_old));
                            if start.live(i) {
                                assert(self.live(i));
                            }
                        }
                    }
                }
            }
            self.update_sliders(square, true, Ghost(occ_old), Ghost(occ_new), Ghost(-1int));
            proof {
                Self::lemma_same_pieces(mid, *self);
                assert(self.occupied() == occ_new);
            }
        }
    }

    /// Move the piece on `from_square` to the empty `to_square`, updating the attack table.
    pub fn move_piece(&mut self, from_square: Square, to_square: Square)
        requires
            old(self).wf(),
            old(self).slot_at(from_square.index()) is Some,
            old(self).slot_at(to_square.index()) is None,
        ensures
            final(self).wf(),
            forall|s: int|
                0 <= s < 64 ==> #[trigger] final(self).piece_on(s) == if s == to_square.index() {
                    old(self).piece_on(from_square.index())
                } else if s == from_square.index() {
                    None
                } else {
                    old(self).piece_on(s)
                },
            forall|i: int| #[trigger] final(self).live(i) == old(self).live(i),
            forall|i: int| 0 <= i < 32 ==> #[trigger] final(self).kind(i) == old(self).kind(i),
            forall|i: int|
                #[trigger] old(self).live(i) && old(self).sq_of(i) != from_square.index()
                    ==> final(self).sq_of(i) == old(self).sq_of(i),
            old(self).slot_at(from_square.index()) matches Some(b) ==> final(self).sq_of(b)
                == to_square.index() && final(self).slot_at(to_square.index()) == Some(b),
    {
        let ghost start = *self;
        let ghost occ0 = self.occupied();
        let ghost f = from_square.index();
        let ghost g = to_square.index();
        let ghost occ1 = |s: int| if s == f {
            false
        } else {
            occ0(s)
        };
        let piece_index = match self.index.get(from_square) {
            Some(p) => p,
            None => PieceIndex::new_unchecked(0),
        };
        let ghost b = piece_index.index();
        let piece = self.piece_from_bit(piece_index);
        self.remove_attacks(piece_index);
        proof {
            Self::lemma_same_pieces(start, *self);
            assert forall|i: int| 0 <= i < 32 && i != b implies #[trigger] self.bits_match(i, occ0) by {
                assert(start.bits_match(i, occ0));
                assert forall|t: int| 0 <= t < 64 implies (#[trigger] self.attacked(t, i)
                    <==> self.piece_attacks(i, t, occ0)) by {
                    assert(start.attacked(t, i) == start.piece_attacks(i, t, occ0));
                }
            }
        }
        self.update_sliders(from_square, true, Ghost(occ0), Ghost(occ1), Ghost(b));
        let ghost mid = *self;
        proof {
            Self::lemma_same_pieces(start, *self);
        }
        self.piecelist.move_piece(piece_index, to_square);
        self.index.move_piece(piece_index, from_square, to_square);
        let ghost occ2 = self.occupied();
        proof {
            assert forall|i: int| 0 <= i < 32 && i != b implies #[trigger] self.kind(i) == mid.kind(i)
                && self.sq_of(i) == mid.sq_of(i) by {}
            assert(self.kind(b) == Some(piece));
            assert(start.slot_at(f) == Some(b));
            assert forall|s: int|
                0 <= s < 64 implies match #[trigger] self.slot_at(s) {
                    Some(i) => self.live(i) && self.sq_of(i) == s,
                    None => true,
                } by {
                if s != f && s != g {
                    assert(self.slot_at(s) == start.slot_at(s));
                    if let Some(i) = start.slot_at(s) {
                        assert(start.live(i));
                        assert(i != b);
                    }
                }
            }
            assert forall|i: int| #[trigger] self.live(i) implies self.slot_at(self.sq_of(i)) == Some(i) by {
                if i != b {
                    assert(start.live(i));
                    assert(start.slot_at(start.sq_of(i)) == Some(i));
                    assert(start.sq_of(i) != f);
                    assert(start.sq_of(i) != g);
                }
            }
            assert forall|t: int| 0 <= t < 64 implies !#[trigger] self.attacked(t, b) by {
                assert(mid.attacked(t, b) == self.attacked(t, b));
            }
        }
        let ghost mid2 = *self;
        self.add_attacks(to_square, piece_index, piece);
        proof {
            Self::lemma_same_pieces(mid2, *self);
            assert forall|i: int| 0 <= i < 32 implies #[trigger] self.bits_match(i, occ1) by {
                if i == b {
                    assert forall|t: int| 0 <= t < 64 implies (#[trigger] self.attacked(t, i)
                        <==> self.piece_attacks(i, t, occ1)) by {
                        Self::lemma_own_square(piece, colour_of_index(b), g, t, occ1, occ2);
                    }
                } else {
                    assert(mid.bits_match(i, occ1));
                    assert forall|t: int| 0 <= t < 64 implies (#[trigger] self.attacked(t, i)
                        <==> self.piece_attacks(i, t, occ1)) by {
                        assert(mid.attacked(t, i) == mid.piece_attacks(i, t, occ1));
                        assert(self.attacked(t, i) == mid.attacked(t, i));
                    }
                }
            }
        }
        self.update_sliders(to_square, false, Ghost(occ1), Ghost(occ2), Ghost(-1int));
        proof {
            Self::lemma_same_pieces(mid2, *self);
            assert(self.occupied() == occ2);
            assert forall|s: int| 0 <= s < 64 implies #[trigger] self.piece_on(s) == if s == g {
                start.piece_on(f)
            } else if s == f {
                None
            } else {
                start.piece_on(s)
            } by {
                if s != f && s != g {
                    if let Some(i) = start.slot_at(s) {
                        assert(start.live(i));
                        assert(i != b);
                    }
                }
            }
        }
    }

    /// True if a piece of `colour` attacks square `t`.
    pub open spec fn attacked_by(self, t: int, colour: Colour) -> bool {
        exists|p: int| 0 <= p < 64 && #[trigger] self.attacker_at(p, t, colour)
    }

    /// True if a pawn of `colour` attacks square `t`.
    pub open spec fn pawn_attacker(self, t: int, colour: Colour) -> bool {
        exists|p: int|
            0 <= p < 64 && #[trigger] self.piece_on(p) == Some((Piece::Pawn, colour))
                && pawn_attacks(colour, p, t)
    }

    /// True if the piece on `p` has colour `colour` and attacks `t`.
    pub open spec fn attacker_at(self, p: int, t: int, colour: Colour) -> bool {
        match self.piece_on(p) {
            Some(pc) => pc.1 == colour && attacks(pc.0, colour, p, t, self.occupied()),
            None => false,
        }
    }

    /// A piece that attacks `t` is recorded in the attack table under its slot.
    pub proof fn lemma_attacker_recorded(self, p: int, t: int, colour: Colour)
        requires
            self.wf(),
            0 <= p < 64,
            0 <= t < 64,
            self.attacker_at(p, t, colour),
        ensures
            self.slot_at(p) is Some,
            0 <= self.slot_at(p).unwrap() < 32,
            self.live(self.slot_at(p).unwrap()),
            self.sq_of(self.slot_at(p).unwrap()) == p,
            self.attacked(t, self.slot_at(p).unwrap()),
            colour_of_index(self.slot_at(p).unwrap()) == colour,
    {
        let i = self.slot_at(p).unwrap();
        assert(self.live(i) && self.sq_of(i) == p);
        assert(self.bits_match(i, self.occupied()));
        assert(self.attacked(t, i));
    }

    /// The attack table of a well-formed board answers `attacked_by`.
    pub proof fn lemma_attacked_by(self, t: int, colour: Colour)
        requires
            self.wf(),
            0 <= t < 64,
        ensures
            (exists|i: int| 0 <= i < 32 && #[trigger] self.attacked(t, i) && colour_of_index(i) == colour)
                <==> self.attacked_by(t, colour),
    {
        if exists|i: int| 0 <= i < 32 && #[trigger] self.attacked(t, i) && colour_of_index(i) == colour {
            let i = choose|i: int| 0 <= i < 32 && #[trigger] self.attacked(t, i) && colour_of_index(i) == colour;
            assert(self.bits_match(i, self.occupied()));
            assert(self.piece_attacks(i, t, self.occupied()));
            let p = self.sq_of(i);
            assert(self.slot_at(p) == Some(i));
            assert(self.piece_on(p) == Some((self.kind(i).unwrap(), colour)));
            assert(self.attacker_at(p, t, colour));
        }
        if self.attacked_by(t, colour) {
            let p = choose|p: int| 0 <= p < 64 && #[trigger] self.attacker_at(p, t, colour);
            let i = self.slot_at(p).unwrap();
            assert(self.live(i) && self.sq_of(i) == p);
            assert(self.bits_match(i, self.occupied()));
            assert(self.attacked(t, i));
        }
    }
}

} // verus!
