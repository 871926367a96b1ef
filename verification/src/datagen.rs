//! Training-data records: the marlinformat position header and the viriformat game stream.
use vstd::prelude::*;

use crate::board::index::{bit64, lemma_set_bit64};
use crate::board::position::{Board, count_below};
use crate::chessmove::{Move, MoveType};
use crate::colour::Colour;
use crate::piece::Piece;
use crate::search::occurrences;
use crate::square::Square;

verus! {

broadcast use Square::lemma_index_range;

/// The game result of a record, from white's point of view.
#[derive(Clone, Copy, PartialEq, Eq, Debug, Structural)]
pub enum MarlinWdl {
    BlackWin,
    Draw,
    WhiteWin,
}

impl MarlinWdl {
    /// The byte that stands for a result: 0 black win, 1 draw, 2 white win.
    pub open spec fn code(self) -> u8 {
        match self {
            MarlinWdl::BlackWin => 0,
            MarlinWdl::Draw => 1,
            MarlinWdl::WhiteWin => 2,
        }
    }

    /// The byte that stands for this result.
    pub fn to_u8(self) -> (r: u8)
        ensures
            r == self.code(),
    {
        match self {
            MarlinWdl::BlackWin => 0,
            MarlinWdl::Draw => 1,
            MarlinWdl::WhiteWin => 2,
        }
    }
}

/// The `n` low bytes of `x`, least significant first.
pub open spec fn le_bytes(x: u64, n: nat) -> Seq<u8> {
    Seq::new(n, |i: int| ((x >> (8 * i) as u64) & 0xff) as u8)
}

/// Append the `n` low bytes of `x` to `buf`, least significant first.
fn push_le(buf: &mut Vec<u8>, x: u64, n: usize)
    requires
        n <= 8,
    ensures
        final(buf)@ == old(buf)@ + le_bytes(x, n as nat),
{
    let mut i: usize = 0;
    while i < n
        invariant
            i <= n <= 8,
            buf@ == old(buf)@ + le_bytes(x, i as nat),
        decreases n - i,
    {
        let byte = ((x >> (8 * i) as u64) & 0xff) as u8;
        buf.push(byte);
        proof {
            assert(buf@ =~= old(buf)@ + le_bytes(x, (i + 1) as nat));
        }
        i = i + 1;
    }
}

/// Nibble `k` of a byte sequence: the low half of byte `k / 2` for even `k`, the high half for
/// odd `k`.
pub open spec fn nibble(bytes: Seq<u8>, k: int) -> u8 {
    if k % 2 == 0 {
        bytes[k / 2] & 15
    } else {
        (bytes[k / 2] >> 4) & 15
    }
}

proof fn lemma_nibble_set(b: u8, v: u8, c: u8, e: u8)
    by (bit_vector)
    requires
        v < 16,
        c < 2,
        e < 128,
    ensures
        v < 8 ==> v | (c << 3) == v + 8 * c,
        (c << 7) | e == 128 * c + e,
        b == 0 ==> (b | v) & 15 == v && (b | v) >> 4 == 0 && (b | v) < 16,
        b < 16 ==> (b | (v << 4)) & 15 == b && ((b | (v << 4)) >> 4) & 15 == v,
        b < 16 ==> (b >> 4) & 15 == 0 && b & 15 == b,
        (0u8 & 15) == 0,
{
}

/// Which squares of `board` hold a piece.
pub open spec fn occupied_squares(board: Board) -> spec_fn(int) -> bool {
    |s: int| board.at(s) is Some
}

/// True if `s` is the home square of a rook that keeps a castling right: h1, a1, h8 and a8 in
/// the order of the rights.
pub open spec fn castling_rook(rights: (bool, bool, bool, bool), s: int) -> bool {
    (rights.0 && s == 7) || (rights.1 && s == 0) || (rights.2 && s == 63) || (rights.3 && s == 56)
}

/// The nibble of the piece on square `s`: the piece number (6 for a rook that keeps a castling
/// right) with the colour in bit 3.
pub open spec fn piece_nibble(board: Board, s: int) -> u8 {
    let (piece, colour) = board.at(s).unwrap();
    let code: int = if piece == Piece::Rook && castling_rook(board.rights(), s) {
        6
    } else {
        piece.ord() as int
    };
    (code + 8 * colour.index()) as u8
}

/// The number of sets elements below `n` equals the recursive count.
proof fn lemma_count_set(pred: spec_fn(int) -> bool, n: int)
    requires
        0 <= n,
    ensures
        Set::new(|s: int| 0 <= s < n && pred(s)).finite(),
        Set::new(|s: int| 0 <= s < n && pred(s)).len() == count_below(pred, n),
    decreases n,
{
    let b = Set::new(|s: int| 0 <= s < n && pred(s));
    if n == 0 {
        assert(b =~= Set::empty());
    } else {
        lemma_count_set(pred, n - 1);
        let a = Set::new(|s: int| 0 <= s < n - 1 && pred(s));
        if pred(n - 1) {
            assert(b =~= a.insert(n - 1));
        } else {
            assert(b =~= a);
        }
    }
}

/// Counting up to `m` counts at least as many as counting up to `n <= m`.
proof fn lemma_count_monotone(pred: spec_fn(int) -> bool, n: int, m: int)
    requires
        0 <= n <= m,
    ensures
        count_below(pred, n) <= count_below(pred, m),
    decreases m - n,
{
    if n < m {
        lemma_count_monotone(pred, n, m - 1);
    }
}

/// A board holds at most 32 pieces: each occupied square has a slot of its own.
proof fn lemma_at_most_32(board: Board)
    requires
        board.rep().wf(),
    ensures
        count_below(occupied_squares(board), 64) <= 32,
{
    let d = board.rep();
    let pred = occupied_squares(board);
    lemma_count_set(pred, 64);
    let sq = Set::new(|s: int| 0 <= s < 64 && pred(s));
    let f = |s: int| d.slot_at(s).unwrap();
    assert forall|a: int, b: int| sq.contains(a) && sq.contains(b) && #[trigger] f(a) == #[trigger] f(b)
        implies a == b by {
        assert(d.sq_of(f(a)) == a);
        assert(d.sq_of(f(b)) == b);
    }
    assert(vstd::relations::injective_on(f, sq));
    let slots = sq.map(f);
    vstd::set_lib::lemma_map_size(sq, slots, f);
    vstd::set_lib::lemma_int_range(0, 32);
    assert(slots.subset_of(vstd::set_lib::set_int_range(0, 32))) by {
        assert forall|i: int| slots.contains(i) implies 0 <= i < 32 by {
            let s = choose|s: int| sq.contains(s) && f(s) == i;
            assert(d.live(i));
        }
    }
    vstd::set_lib::lemma_len_subset(slots, vstd::set_lib::set_int_range(0, 32));
}

/// True if `s` is the home square of a rook that keeps a castling right.
fn is_castling_rook(rights: (bool, bool, bool, bool), s: u8) -> (r: bool)
    ensures
        r == castling_rook(rights, s as int),
{
    (rights.0 && s == 7) || (rights.1 && s == 0) || (rights.2 && s == 63) || (rights.3 && s == 56)
}

/// A position in marlinformat: 32 bytes holding the occupancy, the pieces as nibbles, the side
/// to move with the en-passant square, the clocks, an evaluation and the game result.
pub struct MarlinFormat {
    /// One bit per occupied square.
    pub occupancy: u64,
    /// One nibble per occupied square, in square order, low nibble first.
    pub pieces: [u8; 16],
    /// The side to move in bit 7, the en-passant square (64 for none) below it.
    pub stm_ep_square: u8,
    /// The halfmove clock.
    pub halfmove_clock: u8,
    /// The fullmove number.
    pub fullmove_number: u16,
    /// The evaluation, from white's point of view.
    pub eval: i16,
    /// The game result.
    pub wdl: MarlinWdl,
    /// Unused.
    pub extra: u8,
}

impl MarlinFormat {
    /// This record with its result set to `result`.
    pub open spec fn with_result(self, result: MarlinWdl) -> MarlinFormat {
        MarlinFormat { wdl: result, ..self }
    }

    /// The 32 bytes of this record, as they are written.
    pub open spec fn bytes(self) -> Seq<u8> {
        le_bytes(self.occupancy, 8) + self.pieces@ + seq![self.stm_ep_square, self.halfmove_clock]
            + le_bytes(self.fullmove_number as u64, 2) + le_bytes(self.eval as u16 as u64, 2) + seq![
            self.wdl.code(),
            self.extra,
        ]
    }

    /// True if this is the record of `board`: its pieces, side to move and en-passant square,
    /// with the clocks, the evaluation and the extra byte zero and the result a draw.
    pub open spec fn describes(self, board: Board) -> bool {
        &&& forall|s: int| 0 <= s < 64 ==> (bit64(self.occupancy, s) <==> board.at(s) is Some)
        &&& forall|s: int|
            0 <= s < 64 && #[trigger] board.at(s) is Some ==> nibble(
                self.pieces@,
                count_below(occupied_squares(board), s) as int,
            ) == piece_nibble(board, s)
        &&& forall|k: int|
            count_below(occupied_squares(board), 64) <= k < 32 ==> #[trigger] nibble(self.pieces@, k)
                == 0
        &&& self.stm_ep_square == 128 * board.turn().index() + match board.ep_square() {
            Some(e) => e,
            None => 64,
        }
        &&& self.halfmove_clock == 0
        &&& self.fullmove_number == 0
        &&& self.eval == 0
        &&& self.wdl == MarlinWdl::Draw
        &&& self.extra == 0
    }

    /// The record of a position: its pieces, side to move and en-passant square, with the
    /// clocks, the evaluation and the extra byte zero and the result a draw.
    pub fn from_board(board: &Board) -> (r: MarlinFormat)
        ensures
            r.describes(*board),
    {
        let mut this = MarlinFormat {
            occupancy: 0,
            pieces: [0;16],
            stm_ep_square: 0,
            halfmove_clock: 0,
            fullmove_number: 0,
            eval: 0,
            wdl: MarlinWdl::Draw,
            extra: 0,
        };
        let castle = board.castle();
        let data = board.data();
        let ghost occ = occupied_squares(*board);
        proof {
            lemma_at_most_32(*board);
            assert forall|i: int| 0 <= i < 64 implies !bit64(this.occupancy, i) by {
                lemma_set_bit64(0, 0, i as u64);
            }
        }
        let mut count: usize = 0;
        let mut sq: u8 = 0;
        while sq < 64
            invariant
                sq <= 64,
                *data == board.rep(),
                data.wf(),
                castle == board.rights(),
                count == count_below(occ, sq as int),
                count_below(occ, 64) <= 32,
                occ == occupied_squares(*board),
                forall|i: int|
                    0 <= i < 64 ==> (bit64(this.occupancy, i) <==> (i < sq && board.at(i) is Some)),
                forall|s: int|
                    0 <= s < sq && #[trigger] board.at(s) is Some ==> nibble(
                        this.pieces@,
                        count_below(occ, s) as int,
                    ) == piece_nibble(*board, s),
                forall|j: int| 0 <= j < 16 && 2 * j >= count ==> this.pieces@[j] == 0,
                forall|j: int| 0 <= j < 16 && 2 * j + 1 == count ==> this.pieces@[j] < 16,
                this.stm_ep_square == 0,
                this.halfmove_clock == 0,
                this.fullmove_number == 0,
                this.eval == 0,
                this.wdl == MarlinWdl::Draw,
                this.extra == 0,
            decreases 64 - sq,
        {
            let square = Square::from_u8_unchecked(sq);
            proof {
                lemma_count_monotone(occ, sq + 1, 64);
            }
            match data.piece_index(square) {
                None => {
                    assert(board.at(sq as int) is None);
                },
                Some(piece_idx) => {
                    let piece = board.piece_from_bit(piece_idx);
                    let unmoved_rook = piece == Piece::Rook && is_castling_rook(castle, sq);
                    let code: u8 = if unmoved_rook {
                        6
                    } else {
                        piece.ordinal()
                    };
                    let colour = piece_idx.colour().into_usize() as u8;
                    let mut value: u8 = code | (colour << 3);
                    proof {
                        lemma_nibble_set(0, code, colour, 0);
                        assert(value == piece_nibble(*board, sq as int));
                    }
                    let ghost old_pieces = this.pieces@;
                    let byte = count / 2;
                    let prior = this.pieces[byte];
                    proof {
                        lemma_nibble_set(prior, value, 0, 0);
                    }
                    if count % 2 == 1 {
                        value = value << 4;
                    }
                    this.pieces[byte] = prior | value;
                    let ghost old_occ = this.occupancy;
                    this.occupancy = this.occupancy | (1u64 << sq as u64);
                    proof {
                        assert(this.pieces@ == old_pieces.update(byte as int, prior | value));
                        assert(board.at(sq as int) is Some);
                        assert forall|i: int| 0 <= i < 64 implies (bit64(this.occupancy, i) <==> (i
                            < sq + 1 && board.at(i) is Some)) by {
                            lemma_set_bit64(old_occ, sq as u64, i as u64);
                            assert(bit64(old_occ, i) <==> (i < sq && board.at(i) is Some));
                            assert(bit64(this.occupancy, i) <==> (bit64(old_occ, i) || i == sq));
                        }
                        assert forall|s: int|
                            0 <= s < sq + 1 && #[trigger] board.at(s) is Some implies nibble(
                                this.pieces@,
                                count_below(occ, s) as int,
                            ) == piece_nibble(*board, s) by {
                            if s < sq {
                                lemma_count_monotone(occ, s + 1, sq as int);
                                let k = count_below(occ, s) as int;
                                assert(k < count);
                                assert(nibble(old_pieces, k) == piece_nibble(*board, s));
                                if k / 2 == byte as int {
                                    assert(count % 2 == 1 && k == count - 1);
                                }
                            } else {
                                assert(count_below(occ, s) == count);
                            }
                        }
                    }
                    count = count + 1;
                },
            }
            sq = sq + 1;
        }
        proof {
            assert forall|k: int| count <= k < 32 implies #[trigger] nibble(this.pieces@, k) == 0 by {
                lemma_nibble_set(this.pieces@[k / 2], 0, 0, 0);
            }
        }
        let side = board.side().into_usize() as u8;
        let ep: u8 = match board.ep() {
            Some(e) => e.into_inner(),
            None => 64,
        };
        proof {
            lemma_nibble_set(0, 0, side, ep);
        }
        this.stm_ep_square = (side << 7) | ep;
        this
    }

    /// Append this record to `buf`.
    pub fn write(&self, buf: &mut Vec<u8>)
        ensures
            final(buf)@ == old(buf)@ + self.bytes(),
    {
        let ghost start = buf@;
        push_le(buf, self.occupancy, 8);
        let mut j: usize = 0;
        while j < 16
            invariant
                j <= 16,
                buf@ == start + le_bytes(self.occupancy, 8) + self.pieces@.take(j as int),
            decreases 16 - j,
        {
            buf.push(self.pieces[j]);
            proof {
                assert(self.pieces@.take(j + 1) =~= self.pieces@.take(j as int).push(self.pieces@[j as int]));
            }
            j = j + 1;
        }
        assert(self.pieces@.take(16) =~= self.pieces@);
        buf.push(self.stm_ep_square);
        buf.push(self.halfmove_clock);
        push_le(buf, self.fullmove_number as u64, 2);
        push_le(buf, self.eval as u16 as u64, 2);
        buf.push(self.wdl.to_u8());
        buf.push(self.extra);
        assert(buf@ =~= start + self.bytes());
    }
}


/// The viriformat promotion field of a move kind: 0 knight (or none), 1 bishop, 2 rook,
/// 3 queen.
pub open spec fn viri_promotion(kind: MoveType) -> u16 {
    match kind.promotion() {
        Some(Piece::Bishop) => 1,
        Some(Piece::Rook) => 2,
        Some(Piece::Queen) => 3,
        _ => 0,
    }
}

/// The viriformat flag field of a move kind: 1 en passant, 2 castling, 3 promotion, 0 any
/// other.
pub open spec fn viri_flag(kind: MoveType) -> u16 {
    if kind == MoveType::EnPassant {
        1
    } else if kind == MoveType::KingsideCastle || kind == MoveType::QueensideCastle {
        2
    } else if kind.promotes() {
        3
    } else {
        0
    }
}

/// The viriformat encoding of a move: origin in bits 0-5, destination in bits 6-11, promotion
/// piece in bits 12-13 and flag in bits 14-15.
pub open spec fn viri_value(m: Move) -> u16 {
    (m.from_idx() + 64 * m.dest_idx() + 4096 * viri_promotion(m.move_kind()) + 16384 * viri_flag(
        m.move_kind(),
    )) as u16
}

proof fn lemma_viri_pack(f: u16, d: u16, p: u16, g: u16)
    by (bit_vector)
    requires
        f < 64,
        d < 64,
        p < 4,
        g < 4,
    ensures
        f | (d << 6) | (p << 12) | (g << 14) == f + 64 * d + 4096 * p + 16384 * g,
{
}

/// The viriformat word of a move reads back as the move: its origin in the low six bits, its
/// destination in the next six, a promotion piece as its number counted from the knight
/// (knight 0, bishop 1, rook 2, queen 3) in bits 12-13, and in the top two bits 3 exactly for
/// a promotion, 1 exactly for en passant and 2 exactly for castling.
pub proof fn law_viri_decodes(m: Move)
    ensures
        viri_value(m) % 64 == m.from_idx(),
        (viri_value(m) / 64) % 64 == m.dest_idx(),
        m.move_kind().promotion() matches Some(p) ==> (viri_value(m) / 4096) % 4 == p.ord() - 1,
        (viri_value(m) / 16384 == 3) == m.move_kind().promotes(),
        (viri_value(m) / 16384 == 1) == (m.move_kind() == MoveType::EnPassant),
        (viri_value(m) / 16384 == 2) == (m.move_kind() == MoveType::KingsideCastle || m.move_kind()
            == MoveType::QueensideCastle),
{
    Move::lemma_fields_range(m);
    let f = m.from_idx();
    let d = m.dest_idx();
    let p = viri_promotion(m.move_kind()) as int;
    let g = viri_flag(m.move_kind()) as int;
    assert(0 <= p < 4 && 0 <= g < 4);
    let w = f + 64 * d + 4096 * p + 16384 * g;
    assert(0 <= w < 65536);
    assert(viri_value(m) == w);
    assert(w % 64 == f && (w / 64) % 64 == d && (w / 4096) % 4 == p && w / 16384 == g) by (nonlinear_arith)
        requires
            w == f + 64 * d + 4096 * p + 16384 * g,
            0 <= f < 64,
            0 <= d < 64,
            0 <= p < 4,
            0 <= g < 4,
    ;
}

/// A move in viriformat's 16-bit encoding.
#[derive(Clone, Copy)]
pub struct ViriMove(u16);

impl ViriMove {
    /// The encoded value.
    pub closed spec fn value(self) -> u16 {
        self.0
    }
}

impl From<Move> for ViriMove {
    /// Encode a move.
    fn from(m: Move) -> (r: ViriMove)
        ensures
            r.value() == viri_value(m),
    {
        let from = m.from().into_inner() as u16;
        let dest = m.dest().into_inner() as u16;
        let prom: u16 = match m.promotion_piece() {
            Some(Piece::Bishop) => 1,
            Some(Piece::Rook) => 2,
            Some(Piece::Queen) => 3,
            _ => 0,
        };
        let flags: u16 = match m.kind() {
            MoveType::EnPassant => 1,
            MoveType::KingsideCastle | MoveType::QueensideCastle => 2,
            MoveType::PromotionKnight
            | MoveType::PromotionBishop
            | MoveType::PromotionRook
            | MoveType::PromotionQueen
            | MoveType::CapturePromotionKnight
            | MoveType::CapturePromotionBishop
            | MoveType::CapturePromotionRook
            | MoveType::CapturePromotionQueen => 3,
            _ => 0,
        };
        proof {
            lemma_viri_pack(from, dest, prom, flags);
        }
        ViriMove(from | (dest << 6) | (prom << 12) | (flags << 14))
    }
}

impl vstd::std_specs::convert::FromSpecImpl<Move> for ViriMove {
    open spec fn obeys_from_spec() -> bool {
        true
    }

    closed spec fn from_spec(v: Move) -> ViriMove {
        ViriMove(viri_value(v))
    }
}

/// The bytes of a move stream: each move's encoding and then its score, two little-endian bytes
/// each.
pub open spec fn stream_bytes(moves: Seq<(u16, i16)>) -> Seq<u8>
    decreases moves.len(),
{
    if moves.len() == 0 {
        seq![]
    } else {
        stream_bytes(moves.drop_last()) + le_bytes(moves.last().0 as u64, 2) + le_bytes(
            moves.last().1 as u16 as u64,
            2,
        )
    }
}

/// Each move of the stream takes four bytes.
pub proof fn lemma_stream_len(moves: Seq<(u16, i16)>)
    ensures
        stream_bytes(moves).len() == 4 * moves.len(),
    decreases moves.len(),
{
    if moves.len() > 0 {
        lemma_stream_len(moves.drop_last());
    }
}

/// A game in viriformat: the marlinformat record of its starting position, then its moves
/// with their scores.
pub struct ViriFormat {
    position: MarlinFormat,
    moves: Vec<(ViriMove, i16)>,
}

impl ViriFormat {
    /// The record of the starting position.
    pub closed spec fn header(self) -> MarlinFormat {
        self.position
    }

    /// The moves played, each as its encoding and its score.
    pub closed spec fn record(self) -> Seq<(u16, i16)> {
        self.moves@.map_values(|e: (ViriMove, i16)| (e.0.value(), e.1))
    }

    /// Start a game at `board`.
    pub fn new(board: &Board) -> (r: ViriFormat)
        ensures
            r.header().describes(*board),
            r.record() == Seq::<(u16, i16)>::empty(),
    {
        let r = ViriFormat { position: MarlinFormat::from_board(board), moves: Vec::new() };
        assert(r.record() =~= Seq::<(u16, i16)>::empty());
        r
    }

    /// Record a move and its score.
    pub fn push(&mut self, m: Move, score: i16)
        ensures
            final(self).header() == old(self).header(),
            final(self).record() == old(self).record().push((viri_value(m), score)),
    {
        self.moves.push((ViriMove::from(m), score));
        assert(self.record() =~= old(self).record().push((viri_value(m), score)));
    }

    /// The whole game as bytes: the starting record with the result set, the move stream, and
    /// four zero bytes to end it.
    pub fn finish(self, result: MarlinWdl) -> (r: Vec<u8>)
        ensures
            r@ == self.header().with_result(result).bytes() + stream_bytes(self.record()) + seq![
                0u8,
                0u8,
                0u8,
                0u8,
            ],
            r@.len() == 32 + 4 * self.record().len() + 4,
    {
        let ghost moves = self.record();
        let mut position = self.position;
        position.wdl = result;
        let mut buf: Vec<u8> = Vec::new();
        position.write(&mut buf);
        let ghost head = buf@;
        let mut i: usize = 0;
        while i < self.moves.len()
            invariant
                i <= self.moves.len(),
                moves == self.record(),
                buf@ == head + stream_bytes(moves.take(i as int)),
            decreases self.moves.len() - i,
        {
            let (m, score) = self.moves[i];
            push_le(&mut buf, m.0 as u64, 2);
            push_le(&mut buf, score as u16 as u64, 2);
            proof {
                assert(moves.take(i + 1).drop_last() =~= moves.take(i as int));
            }
            i = i + 1;
        }
        assert(moves.take(self.moves.len() as int) =~= moves);
        buf.push(0);
        buf.push(0);
        buf.push(0);
        buf.push(0);
        proof {
            lemma_stream_len(moves);
        }
        buf
    }
}


/// An opening whose verdict is at least this far from zero, either way, is rejected.
pub const VERDICT_REJECT_CP: i16 = 1000;

/// A score at least this far from zero counts towards adjudicating a win.
pub const WIN_ADJ_CP: i16 = 400;

/// The number of consecutive winning scores, for one side, that adjudicates a win.
pub const WIN_ADJ_PLIES: i32 = 6;

/// A score at most this far from zero counts towards adjudicating a draw.
pub const DRAW_ADJ_CP: i16 = 10;

/// The number of consecutive drawish scores that adjudicates a draw.
pub const DRAW_ADJ_PLIES: i32 = 16;

/// The fewest recorded positions before a draw can be adjudicated.
pub const DRAW_ADJ_MIN_POSITIONS: usize = 40;

/// True if an opening with this verdict (from the side to move's point of view) is balanced
/// enough to be played out.
pub fn opening_accepted(score: i16) -> (r: bool)
    requires
        score > i16::MIN,
    ensures
        r == (-VERDICT_REJECT_CP < score < VERDICT_REJECT_CP),
{
    let magnitude = if score < 0 {
        -score
    } else {
        score
    };
    magnitude < VERDICT_REJECT_CP
}

/// A score from the side to move's point of view, turned to white's.
pub fn white_relative(score: i16, side: Colour) -> (r: i16)
    requires
        score > i16::MIN,
    ensures
        r == if side == Colour::Black {
            -score
        } else {
            score as int
        },
{
    match side {
        Colour::Black => -score,
        Colour::White => score,
    }
}

/// The number of times `hash` occurs in `keystack`, counting no further than three.
pub fn repetitions(keystack: &[u64], hash: u64) -> (r: usize)
    ensures
        r == if occurrences(keystack@, hash) < 3 {
            occurrences(keystack@, hash)
        } else {
            3
        },
{
    let mut count: usize = 0;
    let mut i: usize = 0;
    while i < keystack.len()
        invariant
            0 <= i <= keystack@.len(),
            count == occurrences(keystack@.subrange(0, i as int), hash),
            count < 3,
        decreases keystack@.len() - i,
    {
        proof {
            assert(keystack@.subrange(0, i + 1).drop_last() =~= keystack@.subrange(0, i as int));
        }
        if keystack[i] == hash {
            count += 1;
            if count == 3 {
                proof {
                    lemma_occurrences_prefix(keystack@, (i + 1) as int, hash);
                }
                return 3;
            }
        }
        i += 1;
    }
    assert(keystack@.subrange(0, i as int) =~= keystack@);
    count
}

/// A prefix has no more occurrences than the whole sequence.
proof fn lemma_occurrences_prefix(keys: Seq<u64>, n: int, hash: u64)
    requires
        0 <= n <= keys.len(),
    ensures
        occurrences(keys.subrange(0, n), hash) <= occurrences(keys, hash),
    decreases keys.len() - n,
{
    if n < keys.len() {
        lemma_occurrences_prefix(keys, n + 1, hash);
        assert(keys.subrange(0, n + 1).drop_last() =~= keys.subrange(0, n));
    } else {
        assert(keys.subrange(0, n) =~= keys);
    }
}

/// The adjudication state of a game being played out: the positions recorded so far, the run
/// of drawish scores, and the run of winning scores with the side they favour.
pub struct Adjudication {
    /// Positions recorded.
    pub positions: usize,
    /// Consecutive scores within `DRAW_ADJ_CP` of zero.
    pub draw_adj_counter: i32,
    /// Consecutive scores of at least `WIN_ADJ_CP` for one side.
    pub win_adj_counter: i32,
    /// The side those winning scores favour.
    pub win_adj_white: bool,
}

impl Adjudication {
    /// The state at the start of a game.
    pub fn new() -> (r: Adjudication)
        ensures
            r.positions == 0,
            r.draw_adj_counter == 0,
            r.win_adj_counter == 0,
            r.win_adj_white,
    {
        Adjudication { positions: 0, draw_adj_counter: 0, win_adj_counter: 0, win_adj_white: true }
    }

    /// The result that ends the game now, if any, checked in this order: no legal move (a
    /// loss for the side to move if in check, else a draw), insufficient material, a third
    /// repetition, the fifty-move rule, a run of winning scores, and a long enough run of
    /// drawish scores.
    pub fn verdict(
        &self,
        no_moves: bool,
        in_check: bool,
        side: Colour,
        insufficient: bool,
        repetitions: usize,
        halfmove_clock: u32,
    ) -> (r: Option<MarlinWdl>)
        ensures
            r == if no_moves {
                Some(
                    if !in_check {
                        MarlinWdl::Draw
                    } else if side == Colour::White {
                        MarlinWdl::BlackWin
                    } else {
                        MarlinWdl::WhiteWin
                    },
                )
            } else if insufficient || repetitions == 3 || halfmove_clock == 100 {
                Some(MarlinWdl::Draw)
            } else if self.win_adj_counter >= WIN_ADJ_PLIES {
                Some(
                    if self.win_adj_white {
                        MarlinWdl::WhiteWin
                    } else {
                        MarlinWdl::BlackWin
                    },
                )
            } else if self.draw_adj_counter >= DRAW_ADJ_PLIES && self.positions
                >= DRAW_ADJ_MIN_POSITIONS {
                Some(MarlinWdl::Draw)
            } else {
                None
            },
    {
        if no_moves {
            let wdl = if in_check {
                if side == Colour::White {
                    MarlinWdl::BlackWin
                } else {
                    MarlinWdl::WhiteWin
                }
            } else {
                MarlinWdl::Draw
            };
            return Some(wdl);
        }
        if insufficient {
            return Some(MarlinWdl::Draw);
        }
        if repetitions == 3 {
            return Some(MarlinWdl::Draw);
        }
        if halfmove_clock == 100 {
            return Some(MarlinWdl::Draw);
        }
        if self.win_adj_counter >= WIN_ADJ_PLIES {
            let wdl = if self.win_adj_white {
                MarlinWdl::WhiteWin
            } else {
                MarlinWdl::BlackWin
            };
            return Some(wdl);
        }
        if self.draw_adj_counter >= DRAW_ADJ_PLIES && self.positions >= DRAW_ADJ_MIN_POSITIONS {
            return Some(MarlinWdl::Draw);
        }
        None
    }

    /// Count a recorded position with its score from white's point of view: a drawish score
    /// extends the drawish run and any other ends it; a winning score extends the winning run
    /// when it favours the same side and starts a new run of one when it favours the other;
    /// any other score ends the winning run.
    pub fn record(&mut self, score: i16)
        requires
            old(self).positions < usize::MAX,
            old(self).draw_adj_counter < i32::MAX,
            old(self).win_adj_counter < i32::MAX,
        ensures
            final(self).positions == old(self).positions + 1,
            final(self).draw_adj_counter == if -DRAW_ADJ_CP <= score <= DRAW_ADJ_CP {
                old(self).draw_adj_counter + 1
            } else {
                0
            },
            score >= WIN_ADJ_CP ==> final(self).win_adj_white && final(self).win_adj_counter == if old(
                self,
            ).win_adj_white {
                old(self).win_adj_counter + 1
            } else {
                1
            },
            score <= -WIN_ADJ_CP ==> !final(self).win_adj_white && final(self).win_adj_counter
                == if !old(self).win_adj_white {
                old(self).win_adj_counter + 1
            } else {
                1
            },
            -WIN_ADJ_CP < score < WIN_ADJ_CP ==> final(self).win_adj_counter == 0
                && final(self).win_adj_white == old(self).win_adj_white,
    {
        self.positions += 1;
        if -DRAW_ADJ_CP <= score && score <= DRAW_ADJ_CP {
            self.draw_adj_counter += 1;
        } else {
            self.draw_adj_counter = 0;
        }
        if score >= WIN_ADJ_CP {
            if self.win_adj_white {
                self.win_adj_counter += 1;
            } else {
                self.win_adj_counter = 1;
                self.win_adj_white = true;
            }
        } else if score <= -WIN_ADJ_CP {
            if !self.win_adj_white {
                self.win_adj_counter += 1;
            } else {
                self.win_adj_counter = 1;
                self.win_adj_white = false;
            }
        } else {
            self.win_adj_counter = 0;
        }
    }
}

} // verus!
