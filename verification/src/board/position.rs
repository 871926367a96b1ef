use vstd::prelude::*;

mod movegen;
pub mod legality;
pub mod see;
pub mod san;

use crate::board::attacks::{attacks, pawn_attacks};
use crate::board::bitlist::{Bitlist, bit, bits_below, popcount, lemma_bit_ops};
use crate::board::data::BoardData;
use crate::board::fen::{FenOutcome, Placement, parse_key, piece_of_char, placement, read_fen, square_at};
use crate::board::index::{PieceIndex, colour_of_index};
use crate::chessmove::{Move, MoveType};
use crate::colour::Colour;
use crate::piece::Piece;
use crate::board::attacks::lemma_sq_at;
use vstd::string::StringSliceAdditionalSpecFns;
use crate::square::{Direction, Square, backward, forward, sq_at, sq_file, sq_rank, step};

verus! {

broadcast use {Square::lemma_index_range, PieceIndex::lemma_index_range, BoardData::lemma_sq_of_range};

/// The number of slots `i < n` for which `pred` holds.
pub open spec fn count_below(pred: spec_fn(int) -> bool, n: int) -> nat
    decreases n,
{
    if n <= 0 {
        0
    } else {
        count_below(pred, n - 1) + if pred(n - 1) {
            1nat
        } else {
            0nat
        }
    }
}

/// Counting set bits is counting the slots they stand for.
pub proof fn lemma_popcount_count(x: u32, pred: spec_fn(int) -> bool, n: int)
    requires
        0 <= n <= 32,
        forall|i: int| 0 <= i < 32 ==> (bit(x, i) <==> #[trigger] pred(i)),
    ensures
        bits_below(x, n) == count_below(pred, n),
    decreases n,
{
    if n > 0 {
        lemma_popcount_count(x, pred, n - 1);
    }
}

/// A bitlist of the attackers of `t` of one colour is nonempty exactly when that colour
/// attacks `t`.
proof fn lemma_attackers(data: BoardData, t: int, colour: Colour, b: Bitlist)
    requires
        data.wf(),
        0 <= t < 64,
        forall|i: int|
            b.has(i) <==> (data.attacked(t, i) && 0 <= i < 32 && colour_of_index(i) == colour),
    ensures
        (b@ != 0) == data.attacked_by(t, colour),
{
    data.lemma_attacked_by(t, colour);
    Bitlist::lemma_empty(b);
    if b@ != 0 {
        let i = choose|i: int| b.has(i);
        assert(data.attacked(t, i) && 0 <= i < 32 && colour_of_index(i) == colour);
    }
    if data.attacked_by(t, colour) {
        let i = choose|i: int| 0 <= i < 32 && #[trigger] data.attacked(t, i) && colour_of_index(i) == colour;
        assert(b.has(i));
    }
}

/// A bitlist of the pawns of `colour` attacking `t` is nonempty exactly when such a pawn stands
/// on the board.
proof fn lemma_pawn_attackers(data: BoardData, t: int, colour: Colour, b: Bitlist)
    requires
        data.wf(),
        0 <= t < 64,
        forall|i: int|
            b.has(i) <==> (data.attacked(t, i) && 0 <= i < 32 && colour_of_index(i) == colour
                && data.kind(i) == Some(Piece::Pawn)),
    ensures
        (b@ != 0) == data.pawn_attacker(t, colour),
{
    Bitlist::lemma_empty(b);
    if b@ != 0 {
        let i = choose|i: int| b.has(i);
        assert(data.bits_match(i, data.occupied()));
        assert(data.piece_attacks(i, t, data.occupied()));
        let p = data.sq_of(i);
        assert(data.slot_at(p) == Some(i));
        assert(data.piece_on(p) == Some((Piece::Pawn, colour)));
    }
    if data.pawn_attacker(t, colour) {
        let p = choose|p: int|
            0 <= p < 64 && #[trigger] data.piece_on(p) == Some((Piece::Pawn, colour))
                && pawn_attacks(colour, p, t);
        let i = data.slot_at(p).unwrap();
        assert(data.live(i) && data.sq_of(i) == p);
        assert(data.bits_match(i, data.occupied()));
        assert(data.piece_attacks(i, t, data.occupied()));
        assert(b.has(i));
    }
}

/// Which squares of `squares` are occupied.
pub open spec fn occupancy(squares: Map<int, (Piece, Colour)>) -> spec_fn(int) -> bool {
    |s: int| squares.dom().contains(s)
}

/// True if a piece of `colour` in `squares` attacks square `t`.
pub open spec fn squares_attack(squares: Map<int, (Piece, Colour)>, t: int, colour: Colour) -> bool {
    exists|p: int|
        0 <= p < 64 && squares.dom().contains(p) && (#[trigger] squares[p]).1 == colour && attacks(
            squares[p].0,
            colour,
            p,
            t,
            occupancy(squares),
        )
}

/// True if `squares` holds a king of `colour`.
pub open spec fn has_king_in(squares: Map<int, (Piece, Colour)>, colour: Colour) -> bool {
    exists|s: int| 0 <= s < 64 && #[trigger] square_at(squares, s) == Some((Piece::King, colour))
}

/// True if `s` holds the king of `colour` that comes first in the order of the placement field.
pub open spec fn is_first_king(squares: Map<int, (Piece, Colour)>, colour: Colour, s: int) -> bool {
    &&& 0 <= s < 64
    &&& square_at(squares, s) == Some((Piece::King, colour))
    &&& forall|t: int|
        0 <= t < 64 && #[trigger] square_at(squares, t) == Some((Piece::King, colour)) ==> parse_key(s)
            <= parse_key(t)
}

/// The king of `colour` that comes first in the order of the placement field.
pub open spec fn first_king(squares: Map<int, (Piece, Colour)>, colour: Colour) -> int {
    choose|s: int| is_first_king(squares, colour, s)
}

/// A position read from a record is refused when a king is missing or when the side to move
/// could take the other king.
pub open spec fn placement_illegal(squares: Map<int, (Piece, Colour)>, side: Colour) -> bool {
    ||| !has_king_in(squares, Colour::White)
    ||| !has_king_in(squares, Colour::Black)
    ||| squares_attack(squares, first_king(squares, side.other()), side)
}

/// The state of the placement reader: the board holds exactly the squares read so far, the
/// slots of each colour are used from the lowest up, in the order their squares were read, and
/// everything read lies before `bound` in that order.
pub open spec fn placement_state(
    data: BoardData,
    acc: Map<int, (Piece, Colour)>,
    white: int,
    black: int,
    bound: int,
) -> bool {
    &&& data.consistent()
    &&& 0 <= white <= 16
    &&& 0 <= black <= 16
    &&& forall|s: int| 0 <= s < 64 ==> #[trigger] data.piece_on(s) == square_at(acc, s)
    &&& forall|s: int| #[trigger] acc.dom().contains(s) ==> 0 <= s < 64 && parse_key(s) < bound
    &&& forall|i: int|
        0 <= i < 32 ==> (#[trigger] data.live(i) <==> if i < 16 {
            i < white
        } else {
            i - 16 < black
        })
    &&& forall|i: int, j: int|
        #![trigger data.live(i), data.live(j)]
        data.live(i) && data.live(j) && i < j && colour_of_index(i) == colour_of_index(j)
            ==> parse_key(data.sq_of(i)) < parse_key(data.sq_of(j))
}

/// Two different squares come at different places in the order of the placement field.
proof fn lemma_parse_key_injective(s: int, t: int)
    requires
        0 <= s < 64,
        0 <= t < 64,
        s != t,
    ensures
        parse_key(s) != parse_key(t),
{
}

/// Among the slots below `n`, a king of `colour`, if there is one, has a lowest one.
proof fn lemma_lowest_king(data: BoardData, colour: Colour, n: int)
    requires
        0 <= n,
    ensures
        (exists|i: int| 0 <= i < n && #[trigger] data.is_king_of(i, colour)) ==> exists|i: int|
            0 <= i < n && #[trigger] data.is_king_of(i, colour) && forall|j: int|
                0 <= j < i ==> !data.is_king_of(j, colour),
    decreases n,
{
    if n > 0 {
        lemma_lowest_king(data, colour, n - 1);
        if exists|i: int| 0 <= i < n && #[trigger] data.is_king_of(i, colour) {
            if !(exists|i: int| 0 <= i < n - 1 && #[trigger] data.is_king_of(i, colour)) {
                let i = n - 1;
                assert(data.is_king_of(i, colour));
                assert forall|j: int| 0 <= j < i implies !data.is_king_of(j, colour) by {
                    if data.is_king_of(j, colour) {
                        assert(0 <= j < n - 1);
                    }
                }
            }
        }
    }
}

/// A board that holds exactly `squares` answers the same questions about kings and attacks as
/// `squares` itself; its first king slot of a colour holds the first king in reading order.
proof fn lemma_board_matches(data: BoardData, acc: Map<int, (Piece, Colour)>, white: int, black: int, bound: int)
    requires
        data.wf(),
        placement_state(data, acc, white, black, bound),
    ensures
        forall|c: Colour| #[trigger] data.has_king(c) == has_king_in(acc, c),
        forall|c: Colour| #[trigger]
            data.has_king(c) ==> data.sq_of(data.king_slot(c)) == first_king(acc, c),
        forall|t: int, c: Colour|
            0 <= t < 64 ==> #[trigger] data.attacked_by(t, c) == squares_attack(acc, t, c),
{
    assert forall|c: Colour| #[trigger] data.has_king(c) == has_king_in(acc, c) by {
        if data.has_king(c) {
            let i = choose|i: int| #[trigger] data.is_king_of(i, c);
            let s = data.sq_of(i);
            assert(data.slot_at(s) == Some(i));
            assert(data.piece_on(s) == Some((Piece::King, c)));
            assert(square_at(acc, s) == Some((Piece::King, c)));
        }
        if has_king_in(acc, c) {
            let s = choose|s: int| 0 <= s < 64 && #[trigger] square_at(acc, s) == Some((Piece::King, c));
            assert(data.piece_on(s) == Some((Piece::King, c)));
            let i = data.slot_at(s).unwrap();
            assert(data.is_king_of(i, c));
        }
    }
    assert forall|c: Colour| #[trigger]
        data.has_king(c) implies data.sq_of(data.king_slot(c)) == first_king(acc, c) by {
        let w = choose|i: int| #[trigger] data.is_king_of(i, c);
        lemma_lowest_king(data, c, 32);
        assert(0 <= w < 32 && data.is_king_of(w, c));
        let k = data.king_slot(c);
        assert(data.is_king_of(k, c) && forall|j: int| 0 <= j < k ==> !data.is_king_of(j, c));
        let s0 = data.sq_of(k);
        assert(data.slot_at(s0) == Some(k));
        assert(data.piece_on(s0) == Some((Piece::King, c)));
        assert(square_at(acc, s0) == Some((Piece::King, c)));
        assert forall|t: int|
            0 <= t < 64 && #[trigger] square_at(acc, t) == Some((Piece::King, c)) implies parse_key(s0)
            <= parse_key(t) by {
            assert(data.piece_on(t) == Some((Piece::King, c)));
            let j = data.slot_at(t).unwrap();
            assert(data.live(j) && data.sq_of(j) == t);
            assert(data.is_king_of(j, c));
            if j != k {
                assert(k < j);
                assert(data.live(k) && data.live(j));
            }
        }
        assert(is_first_king(acc, c, s0));
        let f = first_king(acc, c);
        assert(is_first_king(acc, c, f));
        if f != s0 {
            lemma_parse_key_injective(f, s0);
        }
    }
    assert forall|t: int, c: Colour|
        0 <= t < 64 implies #[trigger] data.attacked_by(t, c) == squares_attack(acc, t, c) by {
        let occ = occupancy(acc);
        assert forall|s: int| 0 <= s < 64 implies #[trigger] (data.occupied())(s) == occ(s) by {
            assert(data.piece_on(s) == square_at(acc, s));
        }
        if data.attacked_by(t, c) {
            let p = choose|p: int| 0 <= p < 64 && #[trigger] data.attacker_at(p, t, c);
            let pc = data.piece_on(p).unwrap();
            BoardData::lemma_own_square(pc.0, c, p, t, data.occupied(), occ);
            assert(acc.dom().contains(p) && acc[p] == pc);
        }
        if squares_attack(acc, t, c) {
            let p = choose|p: int|
                0 <= p < 64 && acc.dom().contains(p) && (#[trigger] acc[p]).1 == c && attacks(
                    acc[p].0,
                    c,
                    p,
                    t,
                    occupancy(acc),
                );
            assert(data.piece_on(p) == square_at(acc, p));
            BoardData::lemma_own_square(acc[p].0, c, p, t, data.occupied(), occ);
            assert(data.attacker_at(p, t, c));
        }
    }
}

/// The piece on the back rank of the starting position at file number `file`.
pub open spec fn back_rank_piece(file: int) -> Piece {
    if file == 0 || file == 7 {
        Piece::Rook
    } else if file == 1 || file == 6 {
        Piece::Knight
    } else if file == 2 || file == 5 {
        Piece::Bishop
    } else if file == 3 {
        Piece::Queen
    } else {
        Piece::King
    }
}

/// The piece and colour on square number `s` in the starting position.
pub open spec fn start_square(s: int) -> Option<(Piece, Colour)> {
    let r = sq_rank(s);
    if r == 0 {
        Some((back_rank_piece(sq_file(s)), Colour::White))
    } else if r == 1 {
        Some((Piece::Pawn, Colour::White))
    } else if r == 6 {
        Some((Piece::Pawn, Colour::Black))
    } else if r == 7 {
        Some((back_rank_piece(sq_file(s)), Colour::Black))
    } else {
        None
    }
}

/// The order in which the starting position fills its occupied ranks: 8, 7, 2, 1 (4 for
/// the empty ranks).
spec fn start_row(s: int) -> int {
    let r = sq_rank(s);
    if r == 7 {
        0
    } else if r == 6 {
        1
    } else if r == 1 {
        2
    } else if r == 0 {
        3
    } else {
        4
    }
}

/// The slots in use are the first `white` white slots and the first `black` black slots.
spec fn slots_filled(data: BoardData, white: int, black: int) -> bool {
    forall|i: int|
        0 <= i < 32 ==> (#[trigger] data.live(i) <==> if i < 16 {
            i < white
        } else {
            i - 16 < black
        })
}

/// Put a piece on an empty square, in the next free slot of its colour.
fn place_piece(data: &mut BoardData, piece: Piece, colour: Colour, square: Square, white: u8, black: u8)
    requires
        old(data).consistent(),
        slots_filled(*old(data), white as int, black as int),
        white <= 16,
        black <= 16,
        colour == Colour::White ==> white < 16,
        colour == Colour::Black ==> black < 16,
        old(data).slot_at(square.index()) is None,
    ensures
        final(data).consistent(),
        slots_filled(
            *final(data),
            white + if colour == Colour::White { 1int } else { 0int },
            black + if colour == Colour::Black { 1int } else { 0int },
        ),
        forall|s: int|
            0 <= s < 64 ==> #[trigger] final(data).piece_on(s) == if s == square.index() {
                Some((piece, colour))
            } else {
                old(data).piece_on(s)
            },
{
    let ghost before = *data;
    let ghost fresh: int = if colour == Colour::White {
        white as int
    } else {
        16 + black
    };
    proof {
        assert(!data.live(fresh) && colour_of_index(fresh) == colour);
    }
    data.add_piece(piece, colour, square, false);
    proof {
        let q = square.index();
        let n = choose|i: int| #[trigger] data.live(i) && !before.live(i);
        if n != fresh {
            assert(!before.live(fresh));
            assert(colour_of_index(n) == colour);
            assert(data.sq_of(n) == q);
        }
        assert(data.live(fresh) && data.sq_of(fresh) == q);
        assert forall|i: int| #[trigger] data.live(i) && !before.live(i) implies i == fresh by {
            assert(data.slot_at(q) == Some(i));
            assert(data.slot_at(q) == Some(n));
        }
        let w1: int = if colour == Colour::White { white + 1 } else { white as int };
        let b1: int = if colour == Colour::Black { black + 1 } else { black as int };
        assert forall|i: int| 0 <= i < 32 implies (#[trigger] data.live(i) <==> if i < 16 {
            i < w1
        } else {
            i - 16 < b1
        }) by {
            if data.live(i) && !before.live(i) {
                assert(i == fresh);
            }
            if before.live(i) {
                assert(data.live(i));
            }
        }
    }
}

/// The slots that hold a live piece of `colour`, of kind `kind` when given.
pub open spec fn counted(data: BoardData, colour: Colour, kind: Option<Piece>) -> spec_fn(int) -> bool {
    |i: int|
        data.live(i) && colour_of_index(i) == colour && match kind {
            Some(k) => data.kind(i) == Some(k),
            None => true,
        }
}

/// A chess position.
#[derive(Clone, Copy)]
pub struct Board {
    /// The chess board representation.
    data: BoardData,
    /// The side to move.
    side: Colour,
    /// Castling rights: white kingside, white queenside, black kingside, black queenside.
    castle: (bool, bool, bool, bool),
    /// En-passant square, if any.
    ep: Option<Square>,
}

impl Board {
    #[verifier::type_invariant]
    spec fn well_formed(self) -> bool {
        self.data.wf()
    }

    /// The board representation.
    pub closed spec fn rep(self) -> BoardData {
        self.data
    }

    /// The side to move.
    pub closed spec fn turn(self) -> Colour {
        self.side
    }

    /// The castling rights.
    pub closed spec fn rights(self) -> (bool, bool, bool, bool) {
        self.castle
    }

    /// The en-passant square number, if any.
    pub closed spec fn ep_square(self) -> Option<int> {
        match self.ep {
            Some(sq) => Some(sq.index()),
            None => None,
        }
    }

    /// The piece and colour on square number `s`.
    pub open spec fn at(self, s: int) -> Option<(Piece, Colour)> {
        self.rep().piece_on(s)
    }

    /// The square number of the king of `colour` (the one in the lowest slot).
    pub open spec fn king_at(self, colour: Colour) -> int {
        self.rep().sq_of(self.rep().king_slot(colour))
    }

    /// True if the side to move is in check.
    pub open spec fn checked(self) -> bool {
        self.rep().attacked_by(self.king_at(self.turn()), self.turn().other())
    }

    /// The number of pieces of `colour`, restricted to `kind` when given.
    pub open spec fn piece_count(self, colour: Colour, kind: Option<Piece>) -> nat {
        count_below(counted(self.rep(), colour, kind), 32)
    }

    /// Create a new empty board.
    pub fn new() -> (r: Board)
        ensures
            r.turn() == Colour::White,
            r.rights() == (false, false, false, false),
            r.ep_square() is None,
            forall|s: int| 0 <= s < 64 ==> #[trigger] r.at(s) is None,
            forall|i: int| !#[trigger] r.rep().live(i),
    {
        Board { side: Colour::White, castle: (false, false, false, false), ep: None, data: BoardData::new() }
    }

    /// Borrow the board representation.
    pub fn data(&self) -> (r: &BoardData)
        ensures
            *r == self.rep(),
            r.wf(),
    {
        proof {
            use_type_invariant(self);
        }
        &self.data
    }

    /// The castling rights: white kingside, white queenside, black kingside, black queenside.
    pub fn castle(&self) -> (r: (bool, bool, bool, bool))
        ensures
            r == self.rights(),
    {
        self.castle
    }

    /// Check if this board is illegal: a king is missing, or the side that just moved left
    /// its king attacked.
    pub fn illegal(&self) -> (r: bool)
        ensures
            r == (!self.rep().has_king(Colour::White) || !self.rep().has_king(Colour::Black)
                || self.rep().attacked_by(self.king_at(self.turn().other()), self.turn())),
    {
        proof {
            use_type_invariant(self);
        }
        if self.has_no_king(Colour::White) {
            return true;
        }
        if self.has_no_king(Colour::Black) {
            return true;
        }
        let king = self.data.king_square(self.side.not());
        let attackers = self.data.attacks_to(king, self.side);
        proof {
            lemma_attackers(self.data, king.index(), self.side, attackers);
        }
        if !attackers.empty() {
            return true;
        }
        false
    }

    /// True if `colour` has no king on the board.
    fn has_no_king(&self, colour: Colour) -> (r: bool)
        ensures
            r == !self.rep().has_king(colour),
    {
        proof {
            use_type_invariant(self);
        }
        let kings = self.data.piecemask().kings().and(Bitlist::mask_from_colour(colour));
        proof {
            Bitlist::lemma_empty(kings);
            assert forall|i: int| 0 <= i < 32 implies kings.has(i) == self.data.is_king_of(i, colour) by {
                Bitlist::lemma_colour_bits(colour, i);
            }
            if self.data.has_king(colour) {
                let w = choose|i: int| #[trigger] self.data.is_king_of(i, colour);
                assert(kings.has(w));
            }
        }
        kings.empty()
    }

    /// True if the side to move is in check.
    pub fn in_check(&self) -> (r: bool)
        requires
            self.rep().has_king(self.turn()),
        ensures
            r == self.checked(),
    {
        proof {
            use_type_invariant(self);
        }
        let king = self.data.king_square(self.side);
        let attackers = self.data.attacks_to(king, self.side.not());
        proof {
            lemma_attackers(self.data, king.index(), self.side.other(), attackers);
        }
        !attackers.empty()
    }

    /// The position with the other side to move and no en-passant square.
    pub fn make_null(&self) -> (r: Board)
        ensures
            r.rep() == self.rep(),
            r.turn() == self.turn().other(),
            r.rights() == self.rights(),
            r.ep_square() is None,
    {
        proof {
            use_type_invariant(self);
        }
        let mut board = *self;
        board.side = board.side.not();
        board.ep = None;
        board
    }

    /// The en-passant square, if any.
    pub fn ep(&self) -> (r: Option<Square>)
        ensures
            match r {
                Some(sq) => self.ep_square() == Some(sq.index()),
                None => self.ep_square() is None,
            },
    {
        self.ep
    }

    /// The side to move.
    pub fn side(&self) -> (r: Colour)
        ensures
            r == self.turn(),
    {
        self.side
    }

    /// Given a piece index, return its piece type.
    pub fn piece_from_bit(&self, bit: PieceIndex) -> (r: Piece)
        requires
            self.rep().live(bit.index()),
        ensures
            self.rep().kind(bit.index()) == Some(r),
    {
        self.data.piece_from_bit(bit)
    }

    /// The piece type on a square, if any.
    pub fn piece_from_square(&self, square: Square) -> (r: Option<Piece>)
        ensures
            r == match self.at(square.index()) {
                Some(pc) => Some(pc.0),
                None => None,
            },
    {
        proof {
            use_type_invariant(self);
        }
        self.data.piece_from_square(square)
    }

    /// The square of the piece in slot `bit`.
    pub fn square_of_piece(&self, bit: PieceIndex) -> (r: Square)
        ensures
            r.index() == self.rep().sq_of(bit.index()),
    {
        self.data.square_of_piece(bit)
    }

    /// The square a castling rook starts from, for a castling move to `d`.
    pub open spec fn rook_from(kind: MoveType, d: int) -> int {
        if kind == MoveType::KingsideCastle {
            step(d, Direction::East).unwrap()
        } else {
            step(step(d, Direction::West).unwrap(), Direction::West).unwrap()
        }
    }

    /// The square a castling rook ends on, for a castling move to `d`.
    pub open spec fn rook_to(kind: MoveType, d: int) -> int {
        if kind == MoveType::KingsideCastle {
            step(d, Direction::West).unwrap()
        } else {
            step(d, Direction::East).unwrap()
        }
    }

    /// The square of the pawn taken en passant.
    pub open spec fn ep_victim(self) -> int {
        step(self.ep_square().unwrap(), backward(self.turn())).unwrap()
    }

    /// The moves `make` accepts: a piece of the side to move leaves its square for another, a
    /// capture lands on an occupied square and any other move on an empty one, a castling rook
    /// and an en-passant victim stand where the move says.
    pub open spec fn move_ok(self, m: Move) -> bool {
        let f = m.from_idx();
        let d = m.dest_idx();
        let kind = m.move_kind();
        &&& f != d
        &&& self.at(f) matches Some(pc) && pc.1 == self.turn()
        &&& if kind == MoveType::EnPassant {
            &&& self.ep_square() is Some
            &&& step(self.ep_square().unwrap(), backward(self.turn())) is Some
            &&& self.at(self.ep_victim()) is Some
            &&& self.ep_victim() != f
            &&& self.at(d) is None
        } else if kind == MoveType::Capture || (kind.captures() && kind.promotes()) {
            self.at(d) is Some
        } else if kind == MoveType::KingsideCastle {
            &&& step(d, Direction::East) is Some
            &&& step(d, Direction::West) is Some
            &&& self.at(d) is None
            &&& self.at(Self::rook_from(kind, d)) is Some
            &&& self.at(Self::rook_to(kind, d)) is None
            &&& Self::rook_from(kind, d) != f
        } else if kind == MoveType::QueensideCastle {
            &&& step(d, Direction::West) is Some
            &&& step(step(d, Direction::West).unwrap(), Direction::West) is Some
            &&& step(d, Direction::East) is Some
            &&& self.at(d) is None
            &&& self.at(Self::rook_from(kind, d)) is Some
            &&& self.at(Self::rook_to(kind, d)) is None
            &&& Self::rook_from(kind, d) != f
        } else {
            self.at(d) is None
        }
    }

    /// What stands on square `s` after `m`.
    pub open spec fn at_after(self, m: Move, s: int) -> Option<(Piece, Colour)> {
        let f = m.from_idx();
        let d = m.dest_idx();
        let kind = m.move_kind();
        if s == d {
            match kind.promotion() {
                Some(p) => Some((p, self.turn())),
                None => self.at(f),
            }
        } else if s == f {
            None
        } else if kind == MoveType::KingsideCastle || kind == MoveType::QueensideCastle {
            if s == Self::rook_from(kind, d) {
                None
            } else if s == Self::rook_to(kind, d) {
                self.at(Self::rook_from(kind, d))
            } else {
                self.at(s)
            }
        } else if kind == MoveType::EnPassant && s == self.ep_victim() {
            None
        } else {
            self.at(s)
        }
    }

    /// The castling rights after `m`: a right goes when its king or rook square is left, or
    /// its rook square is moved to.
    pub open spec fn rights_after(self, m: Move) -> (bool, bool, bool, bool) {
        let f = m.from_idx();
        let d = m.dest_idx();
        let c = self.rights();
        (
            c.0 && f != 4 && f != 7 && d != 7,
            c.1 && f != 4 && f != 0 && d != 0,
            c.2 && f != 60 && f != 63 && d != 63,
            c.3 && f != 60 && f != 56 && d != 56,
        )
    }

    /// The board once everything but the moving piece has been dealt with: the moving piece
    /// still stands on its square, the destination is empty and every other square holds what
    /// it will hold after the move.
    spec fn cleared(self, m: Move, data: BoardData) -> bool {
        &&& data.wf()
        &&& data.piece_on(m.from_idx()) == self.at(m.from_idx())
        &&& data.piece_on(m.dest_idx()) is None
        &&& forall|s: int|
            0 <= s < 64 && s != m.dest_idx() && s != m.from_idx() ==> #[trigger] data.piece_on(s)
                == self.at_after(m, s)
    }

    /// The en-passant square after `m`, with `child` the position it leads to: the square
    /// passed by a double push that an enemy pawn attacks.
    pub open spec fn ep_after(self, m: Move, child: Board) -> Option<int> {
        if m.move_kind() == MoveType::DoublePush && step(m.from_idx(), forward(self.turn())) is Some
            && child.rep().pawn_attacker(
            step(m.from_idx(), forward(self.turn())).unwrap(),
            self.turn().other(),
        ) {
            step(m.from_idx(), forward(self.turn()))
        } else {
            None
        }
    }

    /// `child` is the position `m` leads to: the squares as `at_after` says, the other side to
    /// move, the castling rights as `rights_after` says and the en-passant square as `ep_after`.
    pub open spec fn made(self, m: Move, child: Board) -> bool {
        &&& forall|s: int| 0 <= s < 64 ==> #[trigger] child.at(s) == self.at_after(m, s)
        &&& child.turn() == self.turn().other()
        &&& child.rights() == self.rights_after(m)
        &&& child.ep_square() == self.ep_after(m, child)
    }

    /// Make a move on the board, returning the resulting position.
    pub fn make(&self, m: Move) -> (r: Board)
        requires
            self.move_ok(m),
        ensures
            self.made(m, r),
    {
        proof {
            use_type_invariant(self);
        }
        let mut data = self.data;
        let side = self.side;
        let from = m.from();
        let dest = m.dest();
        let kind = m.kind();
        // Take away whatever the move removes from the board besides the moving piece.
        match kind {
            MoveType::Capture | MoveType::CapturePromotionKnight | MoveType::CapturePromotionBishop
            | MoveType::CapturePromotionRook | MoveType::CapturePromotionQueen => {
                if let Some(piece_index) = data.piece_index(dest) {
                    data.remove_piece(piece_index, true);
                }
                assert(self.cleared(m, data));
            },
            MoveType::KingsideCastle => {
                if let (Some(rook_from), Some(rook_to)) = (dest.east(), dest.west()) {
                    data.move_piece(rook_from, rook_to);
                }
                assert(self.cleared(m, data));
            },
            MoveType::QueensideCastle => {
                if let (Some(west1), Some(rook_to)) = (dest.west(), dest.east()) {
                    if let Some(rook_from) = west1.west() {
                        data.move_piece(rook_from, rook_to);
                    }
                }
                assert(self.cleared(m, data));
            },
            MoveType::EnPassant => {
                if let Some(ep) = self.ep {
                    if let Some(target) = ep.relative_south(side) {
                        if let Some(target_piece) = data.piece_index(target) {
                            data.remove_piece(target_piece, true);
                        }
                    }
                }
                assert(self.cleared(m, data));
            },
            _ => {
                assert(self.cleared(m, data));
            },
        }
        assert(self.cleared(m, data));
        data.move_piece(from, dest);
        if m.is_promotion() {
            if let (Some(piece_index), Some(promotion)) = (data.piece_index(dest), m.promotion_piece()) {
                let ghost freed = piece_index.index();
                data.remove_piece(piece_index, true);
                assert(!data.live(freed) && colour_of_index(freed) == side);
                data.add_piece(promotion, side, dest, true);
            }
        }
        // The en-passant square: set after a double push that an enemy pawn could take.
        let mut ep: Option<Square> = None;
        if let MoveType::DoublePush = kind {
            if let Some(candidate) = from.relative_north(side) {
                let attackers = data.attacks_to(candidate, side.not()).and(data.piecemask().pawns());
                proof {
                    lemma_pawn_attackers(data, candidate.index(), side.other(), attackers);
                }
                if !attackers.empty() {
                    ep = Some(candidate);
                }
            }
        }
        // Castling rights lapse when a king or rook square is left or a rook square is taken.
        let f8 = from.into_inner();
        let d8 = dest.into_inner();
        let castle = (
            self.castle.0 && f8 != 4 && f8 != 7 && d8 != 7,
            self.castle.1 && f8 != 4 && f8 != 0 && d8 != 0,
            self.castle.2 && f8 != 60 && f8 != 63 && d8 != 63,
            self.castle.3 && f8 != 60 && f8 != 56 && d8 != 56,
        );
        Board { data, side: side.not(), castle, ep }
    }

    /// The piece and colour a FEN letter stands for.
    fn piece_of_fen_char(c: u8) -> (r: Option<(Piece, Colour)>)
        ensures
            r == piece_of_char(c),
    {
        let upper = 65u8 <= c && c <= 90u8;
        let colour = if upper {
            Colour::White
        } else {
            Colour::Black
        };
        let lower = if upper {
            c + 32
        } else {
            c
        };
        if lower == 107u8 {
            Some((Piece::King, colour))
        } else if lower == 113u8 {
            Some((Piece::Queen, colour))
        } else if lower == 114u8 {
            Some((Piece::Rook, colour))
        } else if lower == 98u8 {
            Some((Piece::Bishop, colour))
        } else if lower == 110u8 {
            Some((Piece::Knight, colour))
        } else if lower == 112u8 {
            Some((Piece::Pawn, colour))
        } else {
            None
        }
    }

    /// Parse a position in Forsyth-Edwards Notation into a board. A record that names a bad
    /// piece or side to move, that gives one colour more than sixteen pieces, or whose position
    /// is illegal (a king missing, or the side to move able to take the other king) gives
    /// `None`.
    pub fn from_fen_bytes(fen: &[u8]) -> (r: Option<Board>)
        requires
            !(read_fen(fen@) is Unreadable),
        ensures
            match read_fen(fen@) {
                FenOutcome::Parsed { squares, side, castle, ep } => {
                    &&& (r is None <==> placement_illegal(squares, side))
                    &&& r matches Some(b) ==> {
                        &&& forall|s: int| 0 <= s < 64 ==> #[trigger] b.at(s) == square_at(squares, s)
                        &&& b.turn() == side
                        &&& b.rights() == castle
                        &&& b.ep_square() == ep
                    }
                },
                _ => r is None,
            },
    {
        let ghost text = fen@;
        let ghost target = placement(text, 0, 7, 0, 0, 0, Map::empty());
        let mut data = BoardData::new();
        let mut idx: usize = 0;
        let mut c: u8 = fen[0];
        let mut rank: u8 = 7;
        let mut file: u8 = 0;
        let mut white: u8 = 0;
        let mut black: u8 = 0;
        let ghost mut acc: Map<int, (Piece, Colour)> = Map::empty();
        proof {
            assert(placement_state(data, acc, 0, 0, 0));
        }
        loop
            invariant
                fen@ == text,
                target == placement(text, 0, 7, 0, 0, 0, Map::empty()),
                !(read_fen(text) is Unreadable),
                placement(text, idx as int, rank as int, file as int, white as nat, black as nat, acc)
                    == target,
                idx < fen.len(),
                c == text[idx as int],
                rank <= 7,
                file <= 15,
                placement_state(
                    data,
                    acc,
                    white as int,
                    black as int,
                    8 * (7 - rank) + if file > 8 {
                        8
                    } else {
                        file as int
                    },
                ),
            ensures
                rank == 0,
                file > 7,
            decreases rank * 32 + 20 - file,
        {
            if file > 7 {
                if rank > 0 {
                    rank -= 1;
                    file = 0;
                    idx += 1;
                    c = fen[idx];
                    continue;
                }
                break;
            }
            if 49u8 <= c && c <= 56u8 {
                file += c - 48u8;
            } else {
                match Self::piece_of_fen_char(c) {
                    None => {
                        return None;
                    },
                    Some((piece, colour)) => {
                        let full = match colour {
                            Colour::White => white >= 16,
                            Colour::Black => black >= 16,
                        };
                        if full {
                            return None;
                        }
                        let square = Square::from_u8_unchecked(8 * rank + file);
                        let ghost before = data;
                        let ghost q = square.index();
                        proof {
                            lemma_sq_at(rank as int, file as int);
                            assert(q == sq_at(rank as int, file as int));
                            assert(!acc.dom().contains(q));
                            assert(data.piece_on(q) is None);
                            let free = if colour == Colour::White {
                                white as int
                            } else {
                                16 + black
                            };
                            assert(!data.live(free) && colour_of_index(free) == colour);
                        }
                        data.add_piece(piece, colour, square, false);
                        proof {
                            let fresh = if colour == Colour::White {
                                white as int
                            } else {
                                16 + black
                            };
                            let n = choose|i: int| #[trigger] data.live(i) && !before.live(i);
                            if n != fresh {
                                assert(!before.live(fresh));
                                assert(colour_of_index(n) == colour);
                                assert(data.sq_of(n) == q);
                            }
                            assert(data.live(fresh) && data.sq_of(fresh) == q);
                            assert forall|i: int| #[trigger] data.live(i) && !before.live(i) implies i
                                == fresh by {
                                assert(data.slot_at(q) == Some(i));
                                assert(data.slot_at(q) == Some(n));
                            }
                            let w1: int = if colour == Colour::White { white + 1 } else { white as int };
                            let b1: int = if colour == Colour::Black { black + 1 } else { black as int };
                            assert forall|i: int| 0 <= i < 32 implies (#[trigger] data.live(i) <==> if i < 16 {
                                i < w1
                            } else {
                                i - 16 < b1
                            }) by {
                                if data.live(i) && !before.live(i) {
                                    assert(i == fresh);
                                }
                                if before.live(i) {
                                    assert(data.live(i));
                                }
                            }
                            assert forall|i: int, j: int|
                                #![trigger data.live(i), data.live(j)]
                                data.live(i) && data.live(j) && i < j && colour_of_index(i) == colour_of_index(j)
                                    implies parse_key(data.sq_of(i)) < parse_key(data.sq_of(j)) by {
                                if !before.live(j) {
                                    assert(j == fresh);
                                    if !before.live(i) {
                                        assert(i == fresh);
                                    }
                                    assert(before.live(i));
                                    assert(data.sq_of(i) == before.sq_of(i));
                                    let si = before.sq_of(i);
                                    assert(before.slot_at(si) == Some(i));
                                    assert(before.piece_on(si) is Some);
                                    assert(square_at(acc, si) is Some);
                                    assert(acc.dom().contains(si));
                                    assert(parse_key(q) == 8 * (7 - rank) + file);
                                } else if !before.live(i) {
                                    assert(i == fresh);
                                    assert(colour_of_index(j) == colour);
                                    assert(false);
                                } else {
                                    assert(before.live(i) && before.live(j));
                                }
                            }
                            acc = acc.insert(q, (piece, colour));
                        }
                        match colour {
                            Colour::White => {
                                white += 1;
                            },
                            Colour::Black => {
                                black += 1;
                            },
                        }
                        file += 1;
                        proof {
                            let bound = 8 * (7 - rank) + if file > 8 { 8 } else { file as int };
                            assert(data.consistent());
                            assert(forall|s: int| 0 <= s < 64 ==> #[trigger] data.piece_on(s) == square_at(acc, s));
                            assert(forall|s: int| #[trigger] acc.dom().contains(s) ==> 0 <= s < 64 && parse_key(s) < bound);
                            assert(forall|i: int|
                                0 <= i < 32 ==> (#[trigger] data.live(i) <==> if i < 16 {
                                    i < white
                                } else {
                                    i - 16 < black
                                }));
                            assert(forall|i: int, j: int|
                                #![trigger data.live(i), data.live(j)]
                                data.live(i) && data.live(j) && i < j && colour_of_index(i) == colour_of_index(j)
                                    ==> parse_key(data.sq_of(i)) < parse_key(data.sq_of(j)));
                        }
                    },
                }
            }
            idx += 1;
            c = fen[idx];
        }
        let ghost squares = acc;
        // Side to move.
        idx += 1;
        c = fen[idx];
        let side = if c == 119u8 {
            Colour::White
        } else if c == 98u8 {
            Colour::Black
        } else {
            return None;
        };
        // Castling rights.
        idx += 2;
        c = fen[idx];
        let mut castle = (false, false, false, false);
        if c == 45u8 {
            idx += 1;
        } else {
            if c == 75u8 {
                castle.0 = true;
                idx += 1;
                c = fen[idx];
            }
            if c == 81u8 {
                castle.1 = true;
                idx += 1;
                c = fen[idx];
            }
            if c == 107u8 {
                castle.2 = true;
                idx += 1;
                c = fen[idx];
            }
            if c == 113u8 {
                castle.3 = true;
                idx += 1;
            }
        }
        // En-passant square.
        idx += 1;
        c = fen[idx];
        let mut ep: Option<Square> = None;
        if c != 45u8 {
            let ep_file = c - 97u8;
            idx += 1;
            c = fen[idx];
            let ep_rank = c - 49u8;
            ep = Some(Square::from_u8_unchecked(8 * ep_rank + ep_file));
        }
        let ghost placed = data;
        data.rebuild_attacks();
        proof {
            assert forall|s: int| 0 <= s < 64 implies #[trigger] data.piece_on(s) == placed.piece_on(s)
                by {
                if let Some(i) = placed.slot_at(s) {
                    assert(placed.live(i));
                }
            }
            assert forall|i: int| 0 <= i < 32 implies #[trigger] data.live(i) == placed.live(i) by {}
            lemma_board_matches(data, squares, white as int, black as int, 64);
        }
        let b = Board { data, side, castle, ep };
        if b.illegal() {
            proof {
                if data.has_king(Colour::White) && data.has_king(Colour::Black) {
                    let k = data.sq_of(data.king_slot(side.other()));
                    assert(k == first_king(squares, side.other()));
                    assert(data.attacked_by(k, side) == squares_attack(squares, k, side));
                }
            }
            return None;
        }
        Some(b)
    }

    /// True if a FEN record can be read to its end, so that `from_fen_bytes` takes it: it
    /// either parses or is refused, rather than running past the text.
    pub fn fen_readable(fen: &[u8]) -> (r: bool)
        ensures
            r == !(read_fen(fen@) is Unreadable),
    {
        let ghost text = fen@;
        let ghost target = placement(text, 0, 7, 0, 0, 0, Map::empty());
        if fen.len() == 0 {
            return false;
        }
        let mut idx: usize = 0;
        let mut rank: u8 = 7;
        let mut file: u8 = 0;
        let mut white: u8 = 0;
        let mut black: u8 = 0;
        let ghost mut acc: Map<int, (Piece, Colour)> = Map::empty();
        loop
            invariant
                fen@ == text,
                target == placement(text, 0, 7, 0, 0, 0, Map::empty()),
                placement(text, idx as int, rank as int, file as int, white as nat, black as nat, acc)
                    == target,
                idx < fen.len(),
                rank <= 7,
                file <= 15,
                white <= 16,
                black <= 16,
            ensures
                target == (Placement::Done { end: idx as int, squares: acc }),
                idx < fen.len(),
            decreases rank * 32 + 20 - file,
        {
            if file > 7 {
                if rank > 0 {
                    rank -= 1;
                    file = 0;
                    idx += 1;
                    if idx >= fen.len() {
                        return false;
                    }
                    continue;
                }
                break;
            }
            let c = fen[idx];
            if 49u8 <= c && c <= 56u8 {
                file += c - 48u8;
            } else {
                match Self::piece_of_fen_char(c) {
                    None => {
                        return true;
                    },
                    Some((piece, colour)) => {
                        let full = match colour {
                            Colour::White => white >= 16,
                            Colour::Black => black >= 16,
                        };
                        if full {
                            return true;
                        }
                        proof {
                            acc = acc.insert(sq_at(rank as int, file as int), (piece, colour));
                        }
                        match colour {
                            Colour::White => {
                                white += 1;
                            },
                            Colour::Black => {
                                black += 1;
                            },
                        }
                        file += 1;
                    },
                }
            }
            idx += 1;
            if idx >= fen.len() {
                return false;
            }
        }
        // Side to move.
        let side = idx + 1;
        if side >= fen.len() {
            return false;
        }
        if fen[side] != 119u8 && fen[side] != 98u8 {
            return true;
        }
        // Castling rights.
        if fen.len() - side <= 2 {
            return false;
        }
        let mut i = side + 2;
        if fen[i] == 45u8 {
            i += 1;
        } else {
            if fen[i] == 75u8 {
                i += 1;
            }
            if i >= fen.len() {
                return false;
            }
            if fen[i] == 81u8 {
                i += 1;
            }
            if i >= fen.len() {
                return false;
            }
            if fen[i] == 107u8 {
                i += 1;
            }
            if i >= fen.len() {
                return false;
            }
            if fen[i] == 113u8 {
                i += 1;
            }
        }
        // En-passant square.
        if fen.len() - i <= 1 {
            return false;
        }
        let e = i + 1;
        if fen[e] == 45u8 {
            return true;
        }
        if !(97u8 <= fen[e] && fen[e] <= 104u8) || e + 1 >= fen.len() || !(49u8 <= fen[e + 1]
            && fen[e + 1] <= 56u8) {
            return false;
        }
        true
    }

    /// Parse a position in Forsyth-Edwards Notation into a board; see `from_fen_bytes`.
    pub fn from_fen(fen: &str) -> (r: Option<Board>)
        requires
            !fen.spec_bytes().contains(0u8),
            !(read_fen(fen.spec_bytes()) is Unreadable),
        ensures
            match read_fen(fen.spec_bytes()) {
                FenOutcome::Parsed { squares, side, castle, ep } => {
                    &&& (r is None <==> placement_illegal(squares, side))
                    &&& r matches Some(b) ==> {
                        &&& forall|s: int| 0 <= s < 64 ==> #[trigger] b.at(s) == square_at(squares, s)
                        &&& b.turn() == side
                        &&& b.rights() == castle
                        &&& b.ep_square() == ep
                    }
                },
                _ => r is None,
            },
    {
        Self::from_fen_bytes(fen.as_bytes())
    }

    /// The standard starting position: white to move, all castling rights, no en-passant
    /// square.
    pub fn startpos() -> (r: Board)
        ensures
            forall|s: int| 0 <= s < 64 ==> #[trigger] r.at(s) == start_square(s),
            r.turn() == Colour::White,
            r.rights() == (true, true, true, true),
            r.ep_square() is None,
    {
        let mut data = BoardData::new();
        let mut white: u8 = 0;
        let mut black: u8 = 0;
        // Ranks in reading order, as a record of the position lists them: the black pieces,
        // the black pawns, the white pawns, the white pieces.
        let mut row: u8 = 0;
        while row < 4
            invariant
                row <= 4,
                data.consistent(),
                slots_filled(data, white as int, black as int),
                white == if row <= 2 { 0 } else { 8 * (row - 2) },
                black == if row <= 2 { 8 * row } else { 16 },
                forall|s: int| 0 <= s < 64 ==> #[trigger] data.piece_on(s) == if start_row(s) < row {
                    start_square(s)
                } else {
                    None
                },
            decreases 4 - row,
        {
            let rank: u8 = if row == 0 {
                7
            } else if row == 1 {
                6
            } else if row == 2 {
                1
            } else {
                0
            };
            let colour = if row < 2 {
                Colour::Black
            } else {
                Colour::White
            };
            let mut file: u8 = 0;
            while file < 8
                invariant
                    row < 4,
                    file <= 8,
                    rank == if row == 0 { 7u8 } else if row == 1 { 6u8 } else if row == 2 { 1u8 } else { 0u8 },
                    colour == if row < 2 { Colour::Black } else { Colour::White },
                    data.consistent(),
                    slots_filled(data, white as int, black as int),
                    white == if row < 2 { 0 } else { 8 * (row - 2) + file },
                    black == if row < 2 { 8 * row + file } else { 16 },
                    forall|s: int| 0 <= s < 64 ==> #[trigger] data.piece_on(s) == if start_row(s)
                        < row || (start_row(s) == row && sq_file(s) < file) {
                        start_square(s)
                    } else {
                        None
                    },
                decreases 8 - file,
            {
                let piece = if rank == 1 || rank == 6 {
                    Piece::Pawn
                } else if file == 0 || file == 7 {
                    Piece::Rook
                } else if file == 1 || file == 6 {
                    Piece::Knight
                } else if file == 2 || file == 5 {
                    Piece::Bishop
                } else if file == 3 {
                    Piece::Queen
                } else {
                    Piece::King
                };
                let square = Square::from_u8_unchecked(8 * rank + file);
                proof {
                    assert(start_row(square.index()) == row && sq_file(square.index()) == file);
                    assert(data.piece_on(square.index()) is None);
                }
                place_piece(&mut data, piece, colour, square, white, black);
                match colour {
                    Colour::White => {
                        white += 1;
                    },
                    Colour::Black => {
                        black += 1;
                    },
                }
                file += 1;
            }
            row += 1;
        }
        let ghost placed = data;
        data.rebuild_attacks();
        proof {
            assert forall|s: int| 0 <= s < 64 implies #[trigger] data.piece_on(s) == placed.piece_on(s)
                by {
                if let Some(i) = placed.slot_at(s) {
                    assert(placed.live(i));
                }
            }
        }
        Board { data, side: Colour::White, castle: (true, true, true, true), ep: None }
    }

    /// Passing the turn twice gives back the pieces, the side to move and the castling rights,
    /// with no en-passant square.
    pub proof fn lemma_null_twice(self, once: Board, twice: Board)
        requires
            once.rep() == self.rep(),
            once.turn() == self.turn().other(),
            once.rights() == self.rights(),
            once.ep_square() is None,
            twice.rep() == once.rep(),
            twice.turn() == once.turn().other(),
            twice.rights() == once.rights(),
            twice.ep_square() is None,
        ensures
            twice.rep() == self.rep(),
            twice.turn() == self.turn(),
            twice.rights() == self.rights(),
            forall|s: int| 0 <= s < 64 ==> #[trigger] twice.at(s) == self.at(s),
    {
    }

    /// A move changes only the squares it moves from, to and through: the origin, the
    /// destination, the castling rook's squares and the square of a pawn taken en passant.
    pub proof fn lemma_make_frame(self, m: Move, child: Board, s: int)
        requires
            self.made(m, child),
            0 <= s < 64,
            s != m.from_idx(),
            s != m.dest_idx(),
            (m.move_kind() == MoveType::KingsideCastle || m.move_kind() == MoveType::QueensideCastle)
                ==> s != Self::rook_from(m.move_kind(), m.dest_idx()) && s != Self::rook_to(
                m.move_kind(),
                m.dest_idx(),
            ),
            m.move_kind() == MoveType::EnPassant ==> s != self.ep_victim(),
        ensures
            child.at(s) == self.at(s),
    {
    }

    /// After a move that is not a promotion, its destination holds the piece that moved.
    pub proof fn lemma_make_moves_piece(self, m: Move, child: Board)
        requires
            self.made(m, child),
            m.move_kind().promotion() is None,
        ensures
            child.at(m.dest_idx()) == self.at(m.from_idx()),
            child.at(m.from_idx()) is None || m.from_idx() == m.dest_idx(),
    {
        Move::lemma_fields_range(m);
    }

    /// The number of pieces in `b` that belong to slots satisfying `pred`.
    fn count_slots(b: Bitlist, Ghost(pred): Ghost<spec_fn(int) -> bool>) -> (r: u32)
        requires
            forall|i: int| 0 <= i < 32 ==> (b.has(i) <==> #[trigger] pred(i)),
        ensures
            r == count_below(pred, 32),
            r <= 32,
    {
        proof {
            lemma_popcount_count(b@, pred, 32);
        }
        b.count_ones()
    }

    /// The number of pieces of type `kind` on the board, both colours together.
    pub open spec fn kind_count(self, kind: Piece) -> nat {
        count_below(|i: int| self.rep().live(i) && self.rep().kind(i) == Some(kind), 32)
    }

    /// The material on the board, in pawns: one for a pawn, three for a knight or a bishop,
    /// five for a rook and nine for a queen, both sides together.
    pub fn material(&self) -> (r: u32)
        ensures
            r == self.kind_count(Piece::Pawn) + 3 * self.kind_count(Piece::Knight) + 3
                * self.kind_count(Piece::Bishop) + 5 * self.kind_count(Piece::Rook) + 9
                * self.kind_count(Piece::Queen),
    {
        proof {
            use_type_invariant(self);
        }
        let pm = self.data.piecemask();
        let ghost d = self.data;
        let pawns = Self::count_slots(
            pm.pawns(),
            Ghost(|i: int| d.live(i) && d.kind(i) == Some(Piece::Pawn)),
        );
        let knights = Self::count_slots(
            pm.knights(),
            Ghost(|i: int| d.live(i) && d.kind(i) == Some(Piece::Knight)),
        );
        let bishops = Self::count_slots(
            pm.bishops(),
            Ghost(|i: int| d.live(i) && d.kind(i) == Some(Piece::Bishop)),
        );
        let rooks = Self::count_slots(
            pm.rooks(),
            Ghost(|i: int| d.live(i) && d.kind(i) == Some(Piece::Rook)),
        );
        let queens = Self::count_slots(
            pm.queens(),
            Ghost(|i: int| d.live(i) && d.kind(i) == Some(Piece::Queen)),
        );
        pawns + 3 * knights + 3 * bishops + 5 * rooks + 9 * queens
    }

    /// True for the positions where neither side can possibly mate: king against king, and
    /// king and a minor piece against a lone king.
    pub fn insufficient_material(&self) -> (r: bool)
        ensures
            ({
                let wc = self.piece_count(Colour::White, None);
                let wn = self.piece_count(Colour::White, Some(Piece::Knight));
                let wb = self.piece_count(Colour::White, Some(Piece::Bishop));
                let bc = self.piece_count(Colour::Black, None);
                let bn = self.piece_count(Colour::Black, Some(Piece::Knight));
                let bb = self.piece_count(Colour::Black, Some(Piece::Bishop));
                r == ((wc == 1 && bc == 1) || (wc == 2 && (wn == 1 || wb == 1) && bc == 1) || (bc
                    == 2 && (bn == 1 || bb == 1) && wc == 1))
            }),
    {
        proof {
            use_type_invariant(self);
        }
        let pm = self.data.piecemask();
        let white = Bitlist::mask_from_colour(Colour::White);
        let black = Bitlist::mask_from_colour(Colour::Black);
        let ghost d = self.data;
        proof {
            assert forall|i: int| 0 <= i < 32 implies (white.has(i) == (colour_of_index(i)
                == Colour::White) && black.has(i) == (colour_of_index(i) == Colour::Black)) by {
                Bitlist::lemma_colour_bits(Colour::White, i);
                Bitlist::lemma_colour_bits(Colour::Black, i);
            }
        }
        let white_count = Self::count_slots(
            pm.occupied().and(white),
            Ghost(counted(d, Colour::White, None)),
        );
        let white_knight_count = Self::count_slots(
            pm.knights().and(white),
            Ghost(counted(d, Colour::White, Some(Piece::Knight))),
        );
        let white_bishop_count = Self::count_slots(
            pm.bishops().and(white),
            Ghost(counted(d, Colour::White, Some(Piece::Bishop))),
        );
        let black_count = Self::count_slots(
            pm.occupied().and(black),
            Ghost(counted(d, Colour::Black, None)),
        );
        let black_knight_count = Self::count_slots(
            pm.knights().and(black),
            Ghost(counted(d, Colour::Black, Some(Piece::Knight))),
        );
        let black_bishop_count = Self::count_slots(
            pm.bishops().and(black),
            Ghost(counted(d, Colour::Black, Some(Piece::Bishop))),
        );
        proof {
            assert(self.piece_count(Colour::White, None) == white_count);
            assert(self.piece_count(Colour::White, Some(Piece::Knight)) == white_knight_count);
            assert(self.piece_count(Colour::White, Some(Piece::Bishop)) == white_bishop_count);
            assert(self.piece_count(Colour::Black, None) == black_count);
            assert(self.piece_count(Colour::Black, Some(Piece::Knight)) == black_knight_count);
            assert(self.piece_count(Colour::Black, Some(Piece::Bishop)) == black_bishop_count);
        }
        if white_count == 1 && black_count == 1 {
            return true;
        }
        if (white_count == 2 && (white_knight_count == 1 || white_bishop_count == 1) && black_count == 1)
            || (black_count == 2 && (black_knight_count == 1 || black_bishop_count == 1) && white_count == 1)
        {
            return true;
        }
        false
    }
}

} // verus!
