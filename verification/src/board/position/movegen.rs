//! Move generation.
use vstd::prelude::*;

use crate::board::attacks::{
    attacks, strictly_between, clear_ray, dist, is_queen_dir, king_attacks, lemma_direction_ray, lemma_king_dirs,
    lemma_ray_step, lemma_sq_at, lemma_step, pawn_attacks, ray_on, ray_sq, scale,
};
use crate::board::bitlist::{Bitlist, popcount};
use crate::board::data::BoardData;
use crate::board::index::{PieceIndex, colour_of_index};
use crate::board::movelist::{list_get, list_len, moves_of, new_list, try_push};
use crate::board::position::legality::{fourth_rank, last_rank, lists};
use crate::board::pins::{PinInfo, ep_pins_slot, lemma_pin_direction, pin_line, pins_slot};
use crate::board::position::Board;
use crate::chessmove::{Move, MoveType};
use crate::colour::Colour;
use crate::piece::Piece;
use crate::square::{
    Direction, Square, Square16x8, backward, direction_between, forward, king_dir, king_jumps, sq_file, sq_rank,
    step,
};
use tinyvec::ArrayVec;

verus! {

broadcast use {Square::lemma_index_range, PieceIndex::lemma_index_range, BoardData::lemma_sq_of_range};

/// Every move that `after` adds to `before` goes to square `d`, and none is en passant.
pub open spec fn all_onto(before: Seq<Move>, after: Seq<Move>, d: int) -> bool {
    forall|i: int|
        before.len() <= i < after.len() ==> (#[trigger] after[i]).dest_idx() == d && after[i].move_kind()
            != MoveType::EnPassant
}

/// Adding moves to `d` to a list that gained only moves to `d` gains only moves to `d`.
proof fn lemma_all_onto_trans(a: Seq<Move>, b: Seq<Move>, c: Seq<Move>, d: int)
    requires
        a.len() <= b.len(),
        b.len() <= c.len(),
        c.subrange(0, b.len() as int) == b,
        all_onto(a, b, d),
        all_onto(b, c, d),
    ensures
        all_onto(a, c, d),
{
    assert forall|i: int| a.len() <= i < c.len() implies (#[trigger] c[i]).dest_idx() == d && c[i].move_kind()
        != MoveType::EnPassant by {
        if i < b.len() {
            assert(c[i] == c.subrange(0, b.len() as int)[i]);
        }
    }
}

/// No move occurs twice among those that `after` adds to `before`.
pub open spec fn no_repeats(before: Seq<Move>, after: Seq<Move>) -> bool {
    forall|i: int, j: int| before.len() <= i < j < after.len() ==> after[i] != after[j]
}

/// Every move that `after` adds to `before` starts on the square of a slot of `froms`.
pub open spec fn all_from(board: Board, before: Seq<Move>, after: Seq<Move>, froms: Bitlist) -> bool {
    forall|i: int|
        before.len() <= i < after.len() ==> (board.rep().slot_at((#[trigger] after[i]).from_idx()) matches Some(
            c,
        ) && froms.has(c))
}

/// Every move that `after` adds to `before` starts on the square of a slot of `froms` that
/// `rest` does not hold.
pub open spec fn all_from_done(
    board: Board,
    before: Seq<Move>,
    after: Seq<Move>,
    froms: Bitlist,
    rest: Bitlist,
) -> bool {
    forall|i: int|
        before.len() <= i < after.len() ==> (board.rep().slot_at((#[trigger] after[i]).from_idx()) matches Some(
            c,
        ) && froms.has(c) && !rest.has(c))
}

/// Two runs of added moves without repeats, told apart by `sep`, make one without repeats.
proof fn lemma_no_repeats_join(a: Seq<Move>, b: Seq<Move>, c: Seq<Move>, sep: spec_fn(Move) -> bool)
    requires
        a.len() <= b.len() <= c.len(),
        c.subrange(0, b.len() as int) == b,
        no_repeats(a, b),
        no_repeats(b, c),
        forall|i: int| a.len() <= i < b.len() ==> sep(#[trigger] b[i]),
        forall|i: int| b.len() <= i < c.len() ==> !sep(#[trigger] c[i]),
    ensures
        no_repeats(a, c),
{
    assert forall|i: int, j: int| a.len() <= i < j < c.len() implies c[i] != c[j] by {
        if i < b.len() {
            assert(c[i] == c.subrange(0, b.len() as int)[i]);
            assert(sep(b[i]));
            if j < b.len() {
                assert(c[j] == c.subrange(0, b.len() as int)[j]);
            } else {
                assert(!sep(c[j]));
            }
        }
    }
}

/// Up to four pushes of one move each, from `f` to `d`, of four distinct kinds, add no
/// repeat, and every move they add goes from `f` to `d`.
proof fn lemma_four_kinds(
    m0: Seq<Move>,
    m1: Seq<Move>,
    m2: Seq<Move>,
    m3: Seq<Move>,
    m4: Seq<Move>,
    f: int,
    d: int,
    k1: MoveType,
    k2: MoveType,
    k3: MoveType,
    k4: MoveType,
)
    requires
        m0.len() <= m1.len() <= m0.len() + 1,
        m1.len() <= m2.len() <= m1.len() + 1,
        m2.len() <= m3.len() <= m2.len() + 1,
        m3.len() <= m4.len() <= m3.len() + 1,
        m2.subrange(0, m1.len() as int) == m1,
        m3.subrange(0, m2.len() as int) == m2,
        m4.subrange(0, m3.len() as int) == m3,
        forall|i: int| m0.len() <= i < m1.len() ==> (#[trigger] m1[i]).move_kind() == k1 && m1[i].from_idx() == f && m1[i].dest_idx() == d,
        forall|i: int| m1.len() <= i < m2.len() ==> (#[trigger] m2[i]).move_kind() == k2 && m2[i].from_idx() == f && m2[i].dest_idx() == d,
        forall|i: int| m2.len() <= i < m3.len() ==> (#[trigger] m3[i]).move_kind() == k3 && m3[i].from_idx() == f && m3[i].dest_idx() == d,
        forall|i: int| m3.len() <= i < m4.len() ==> (#[trigger] m4[i]).move_kind() == k4 && m4[i].from_idx() == f && m4[i].dest_idx() == d,
        k1 != k2,
        k1 != k3,
        k1 != k4,
        k2 != k3,
        k2 != k4,
        k3 != k4,
    ensures
        no_repeats(m0, m4),
        forall|i: int| m0.len() <= i < m4.len() ==> (#[trigger] m4[i]).from_idx() == f && m4[i].dest_idx() == d,
        forall|i: int|
            m0.len() <= i < m4.len() ==> (#[trigger] m4[i]).move_kind() == k1 || m4[i].move_kind() == k2
                || m4[i].move_kind() == k3 || m4[i].move_kind() == k4,
{
    assert forall|i: int| m0.len() <= i < m4.len() implies (#[trigger] m4[i]).from_idx() == f && m4[i].dest_idx() == d
        && (i < m1.len() ==> m4[i].move_kind() == k1) && (m1.len() <= i < m2.len() ==> m4[i].move_kind() == k2)
        && (m2.len() <= i < m3.len() ==> m4[i].move_kind() == k3) && (m3.len() <= i ==> m4[i].move_kind() == k4) by {
        if i < m3.len() {
            assert(m4[i] == m4.subrange(0, m3.len() as int)[i]);
            if i < m2.len() {
                assert(m3[i] == m3.subrange(0, m2.len() as int)[i]);
                if i < m1.len() {
                    assert(m2[i] == m2.subrange(0, m1.len() as int)[i]);
                }
            }
        }
    }
}

/// The order of piece kinds in which captures of one square are generated.
pub open spec fn piece_rank(p: Piece) -> int {
    match p {
        Piece::Pawn => 0,
        Piece::Knight => 1,
        Piece::Bishop => 2,
        Piece::Rook => 3,
        Piece::Queen => 4,
        Piece::King => 5,
    }
}

/// Every move that `after` adds to `before` starts on a piece of rank below `n`.
pub open spec fn from_rank_below(board: Board, before: Seq<Move>, after: Seq<Move>, n: int) -> bool {
    forall|i: int|
        before.len() <= i < after.len() ==> (board.at((#[trigger] after[i]).from_idx()) matches Some(pc)
            && piece_rank(pc.0) < n)
}

/// A run of moves without repeats from pieces of rank below `n`, then a run without repeats
/// from pieces of rank `n`, make one run without repeats from pieces of rank below `n + 1`.
proof fn lemma_join_rank(board: Board, start: Seq<Move>, a: Seq<Move>, b: Seq<Move>, n: int)
    requires
        start.len() <= a.len() <= b.len(),
        b.subrange(0, a.len() as int) == a,
        no_repeats(start, a),
        no_repeats(a, b),
        from_rank_below(board, start, a, n),
        forall|i: int|
            a.len() <= i < b.len() ==> (board.at((#[trigger] b[i]).from_idx()) matches Some(pc) && piece_rank(pc.0)
                == n),
    ensures
        no_repeats(start, b),
        from_rank_below(board, start, b, n + 1),
{
    assert forall|i: int| start.len() <= i < a.len() implies #[trigger] b[i] == a[i] by {
        assert(b[i] == b.subrange(0, a.len() as int)[i]);
    }
    lemma_no_repeats_join(
        start,
        a,
        b,
        |m: Move| (board.at(m.from_idx()) matches Some(pc) && piece_rank(pc.0) < n),
    );
}

/// Adding at most one move adds no repeat.
proof fn lemma_no_repeats_one(a: Seq<Move>, b: Seq<Move>)
    requires
        b.len() <= a.len() + 1,
    ensures
        no_repeats(a, b),
{
}

/// Every move that `after` adds to `before` takes a piece in `victims`, and none is en
/// passant.
pub open spec fn all_take(board: Board, before: Seq<Move>, after: Seq<Move>, victims: Bitlist) -> bool {
    forall|i: int|
        before.len() <= i < after.len() ==> (board.rep().slot_at((#[trigger] after[i]).dest_idx()) matches Some(
            vi,
        ) && victims.has(vi)) && after[i].move_kind() != MoveType::EnPassant
}

/// No move that `after` adds to `before` is a castling move.
pub open spec fn no_castling(before: Seq<Move>, after: Seq<Move>) -> bool {
    forall|i: int|
        before.len() <= i < after.len() ==> (#[trigger] after[i]).move_kind() != MoveType::KingsideCastle
            && after[i].move_kind() != MoveType::QueensideCastle
}

/// Adding moves other than castling to a list that gained no castling move gains none.
proof fn lemma_no_castling_trans(a: Seq<Move>, b: Seq<Move>, c: Seq<Move>)
    requires
        a.len() <= b.len(),
        b.len() <= c.len(),
        c.subrange(0, b.len() as int) == b,
        no_castling(a, b),
        no_castling(b, c),
    ensures
        no_castling(a, c),
{
    assert forall|i: int| a.len() <= i < c.len() implies (#[trigger] c[i]).move_kind()
        != MoveType::KingsideCastle && c[i].move_kind() != MoveType::QueensideCastle by {
        if i < b.len() {
            assert(c[i] == c.subrange(0, b.len() as int)[i]);
        }
    }
}

/// Every move that `after` adds to `before` is an en-passant capture.
pub open spec fn all_en_passant(before: Seq<Move>, after: Seq<Move>) -> bool {
    forall|i: int| before.len() <= i < after.len() ==> (#[trigger] after[i]).move_kind() == MoveType::EnPassant
}

/// True if the square beyond `k`, seen from `s`, is `xray1` or `xray2`, when there is such a
/// square.
pub open spec fn xray_listed(s: int, k: int, xray1: Option<Square>, xray2: Option<Square>) -> bool {
    match direction_between(s, k) {
        Some(dir) => match step(k, dir) {
            Some(x) => (xray1 matches Some(a) && a.index() == x) || (xray2 matches Some(b) && b.index()
                == x),
            None => true,
        },
        None => true,
    }
}

/// A piece that attacks a square stands on another square, and the attack table records it.
pub proof fn lemma_attacker(data: BoardData, t: int, i: int)
    requires
        data.wf(),
        0 <= t < 64,
        0 <= i < 32,
        data.attacked(t, i),
    ensures
        data.live(i),
        data.sq_of(i) != t,
        data.piece_on(data.sq_of(i)) == Some((data.kind(i).unwrap(), colour_of_index(i))),
        attacks(data.kind(i).unwrap(), colour_of_index(i), data.sq_of(i), t, data.occupied()),
{
    assert(data.bits_match(i, data.occupied()));
    assert(data.piece_attacks(i, t, data.occupied()));
    assert(data.slot_at(data.sq_of(i)) == Some(i));
}

/// A live slot's piece stands on its square.
pub proof fn lemma_slot_square(data: BoardData, i: int)
    requires
        data.consistent(),
        data.live(i),
    ensures
        data.piece_on(data.sq_of(i)) == Some((data.kind(i).unwrap(), colour_of_index(i))),
        data.slot_at(data.sq_of(i)) == Some(i),
{
}

/// The direction from `b` back to `a` reverses the direction from `a` to `b`, over the same
/// distance.
pub proof fn lemma_direction_reverse(a: int, b: int)
    requires
        0 <= a < 64,
        0 <= b < 64,
        direction_between(a, b) is Some,
    ensures
        direction_between(b, a) is Some,
        direction_between(b, a).unwrap().dr() == -direction_between(a, b).unwrap().dr(),
        direction_between(b, a).unwrap().df() == -direction_between(a, b).unwrap().df(),
        dist(a, b) == dist(b, a),
{
}

/// Walking back from `k` towards `a` retraces the ray from `a` to `k`.
pub proof fn lemma_ray_reverse(a: int, k: int, j: int)
    requires
        0 <= a < 64,
        0 <= k < 64,
        direction_between(a, k) is Some,
        0 <= j <= dist(a, k),
    ensures
        ray_on(k, direction_between(k, a).unwrap(), j),
        ray_sq(k, direction_between(k, a).unwrap(), j) == ray_sq(
            a,
            direction_between(a, k).unwrap(),
            dist(a, k) - j,
        ),
{
    lemma_direction_reverse(a, k);
    lemma_direction_ray(a, k);
    let da = direction_between(a, k).unwrap();
    let n = dist(a, k);
    lemma_sq_at(sq_rank(a) + scale(n, da.dr()), sq_file(a) + scale(n, da.df()));
    assert(ray_on(a, da, n - j));
}

/// Every square a king step away is among the squares a king iterator yields from the start.
pub proof fn lemma_king_jumps_cover(sq: int, start: int, i: int, t: int)
    requires
        0 <= sq < 64,
        0 <= start <= i < 8,
        step(sq, king_dir(i)) == Some(t),
    ensures
        king_jumps(sq, start).contains(t),
    decreases 8 - start,
{
    let rest = king_jumps(sq, start + 1);
    if start < i {
        lemma_king_jumps_cover(sq, start + 1, i, t);
        let j = choose|j: int| 0 <= j < rest.len() && rest[j] == t;
        match step(sq, king_dir(start)) {
            Some(u) => {
                assert(king_jumps(sq, start) == seq![u] + rest);
                assert(king_jumps(sq, start)[j + 1] == t);
            },
            None => {
                assert(king_jumps(sq, start) == rest);
            },
        }
    } else {
        assert(king_jumps(sq, start) == seq![t] + rest);
        assert(king_jumps(sq, start)[0] == t);
    }
}

/// The squares a king steps to from `sq`, by the directions from `start` on, each come by
/// one of those directions, and none comes twice.
pub proof fn lemma_king_jumps_distinct(sq: int, start: int)
    requires
        0 <= sq < 64,
        0 <= start,
    ensures
        forall|j: int|
            0 <= j < king_jumps(sq, start).len() ==> exists|i: int|
                start <= i < 8 && step(sq, king_dir(i)) == Some(#[trigger] king_jumps(sq, start)[j]),
        forall|j1: int, j2: int|
            0 <= j1 < j2 < king_jumps(sq, start).len() ==> king_jumps(sq, start)[j1] != king_jumps(sq, start)[j2],
    decreases 8 - start,
{
    if start < 8 {
        lemma_king_jumps_distinct(sq, start + 1);
        let rest = king_jumps(sq, start + 1);
        match step(sq, king_dir(start)) {
            Some(t) => {
                assert(king_jumps(sq, start) == seq![t] + rest);
                assert forall|j: int| 0 <= j < rest.len() implies rest[j] != t by {
                    let i = choose|i: int| start + 1 <= i < 8 && step(sq, king_dir(i)) == Some(#[trigger] rest[j]);
                    let d1 = king_dir(start);
                    let d2 = king_dir(i);
                    lemma_sq_at(sq_rank(sq) + d1.dr(), sq_file(sq) + d1.df());
                    lemma_sq_at(sq_rank(sq) + d2.dr(), sq_file(sq) + d2.df());
                }
                assert forall|j: int| 0 <= j < king_jumps(sq, start).len() implies exists|i: int|
                    start <= i < 8 && step(sq, king_dir(i)) == Some(#[trigger] king_jumps(sq, start)[j]) by {
                    if j > 0 {
                        assert(king_jumps(sq, start)[j] == rest[j - 1]);
                    }
                }
                assert forall|j1: int, j2: int|
                    0 <= j1 < j2 < king_jumps(sq, start).len() implies king_jumps(sq, start)[j1] != king_jumps(sq, start)[j2] by {
                    assert(king_jumps(sq, start)[j2] == rest[j2 - 1]);
                    if j1 > 0 {
                        assert(king_jumps(sq, start)[j1] == rest[j1 - 1]);
                    }
                }
            },
            None => {
                assert(king_jumps(sq, start) == rest);
            },
        }
    }
}

/// A king steps to at most eight squares.
pub proof fn lemma_king_jumps_len(sq: int, start: int)
    requires
        0 <= start <= 8,
    ensures
        king_jumps(sq, start).len() <= 8 - start,
    decreases 8 - start,
{
    if start < 8 {
        lemma_king_jumps_len(sq, start + 1);
    }
}

/// Every square a king iterator yields from `start` on is a king step away.
pub proof fn lemma_king_jumps(sq: int, start: int)
    requires
        0 <= sq < 64,
        0 <= start,
    ensures
        forall|j: int|
            0 <= j < king_jumps(sq, start).len() ==> 0 <= #[trigger] king_jumps(sq, start)[j] < 64
                && king_attacks(sq, king_jumps(sq, start)[j]),
    decreases 8 - start,
{
    if start < 8 {
        lemma_king_jumps(sq, start + 1);
        let rest = king_jumps(sq, start + 1);
        match step(sq, king_dir(start)) {
            Some(t) => {
                lemma_step(sq, king_dir(start), t);
                lemma_king_dirs(sq, t);
                assert(0 <= start < 8 && step(sq, king_dir(start)) == Some(t));
                assert(king_attacks(sq, t));
                assert(king_jumps(sq, start) == seq![t] + rest);
                assert forall|j: int| 0 < j < king_jumps(sq, start).len() implies king_jumps(sq, start)[j]
                    == rest[j - 1] by {}
            },
            None => {
                assert(king_jumps(sq, start) == rest);
            },
        }
    }
}

/// Stepping backward and then forward returns to the start.
pub proof fn lemma_step_back(d: int, c: Colour)
    requires
        0 <= d < 64,
        step(d, backward(c)) is Some,
    ensures
        0 <= step(d, backward(c)).unwrap() < 64,
        step(step(d, backward(c)).unwrap(), forward(c)) == Some(d),
{
    let f = step(d, backward(c)).unwrap();
    lemma_step(d, backward(c), f);
    lemma_sq_at(sq_rank(d) + backward(c).dr(), sq_file(d) + backward(c).df());
}

impl Board {
    /// True if moving the piece on `f` to `d` as a move of kind `kind` follows the rules of
    /// piece movement, leaving aside whether it leaves the mover's king in check: a piece of
    /// the side to move goes to another square, empty for a quiet move and holding an enemy
    /// piece for a capture; pawns push one or two squares forward or take diagonally (en
    /// passant onto the en-passant square), promote only from a pawn, other pieces move as they
    /// attack, and castling moves the king two squares along its rank.
    pub open spec fn movable(self, f: int, d: int, kind: MoveType) -> bool {
        let pc = self.at(f).unwrap();
        let side = self.turn();
        let occ = self.rep().occupied();
        &&& 0 <= f < 64
        &&& 0 <= d < 64
        &&& f != d
        &&& self.at(f) is Some
        &&& pc.1 == side
        &&& kind != MoveType::Unused1
        &&& kind != MoveType::Unused2
        &&& if kind == MoveType::EnPassant {
            &&& self.ep_square() == Some(d)
            &&& pc.0 == Piece::Pawn
            &&& pawn_attacks(side, f, d)
        } else if kind.captures() {
            &&& self.at(d) is Some
            &&& self.at(d).unwrap().1 == side.other()
            &&& attacks(pc.0, side, f, d, occ)
        } else {
            self.at(d) is None
        }
        &&& kind.promotes() ==> pc.0 == Piece::Pawn
        &&& (kind == MoveType::Normal && pc.0 != Piece::Pawn) ==> attacks(pc.0, side, f, d, occ)
        &&& (pc.0 == Piece::Pawn && !kind.captures() && kind != MoveType::DoublePush) ==> step(
            f,
            forward(side),
        ) == Some(d)
        &&& kind == MoveType::DoublePush ==> {
            &&& pc.0 == Piece::Pawn
            &&& step(f, forward(side)) is Some
            &&& step(step(f, forward(side)).unwrap(), forward(side)) == Some(d)
            &&& self.at(step(f, forward(side)).unwrap()) is None
        }
        &&& kind == MoveType::KingsideCastle ==> {
            &&& pc.0 == Piece::King
            &&& step(f, Direction::East) is Some
            &&& step(step(f, Direction::East).unwrap(), Direction::East) == Some(d)
        }
        &&& kind == MoveType::QueensideCastle ==> {
            &&& pc.0 == Piece::King
            &&& step(f, Direction::West) is Some
            &&& step(step(f, Direction::West).unwrap(), Direction::West) == Some(d)
        }
    }

    /// True if `m` is a move that the move generator may produce.
    pub open spec fn generated(self, m: Move) -> bool {
        self.movable(m.from_idx(), m.dest_idx(), m.move_kind())
    }

    /// `after` is `before` followed by generated moves.
    pub open spec fn extends(self, before: Seq<Move>, after: Seq<Move>) -> bool {
        &&& before.len() <= after.len()
        &&& after.subrange(0, before.len() as int) == before
        &&& forall|i: int| before.len() <= i < after.len() ==> self.generated(#[trigger] after[i])
    }

    /// The place of a capture in the order of the capture list, higher first: by its victim,
    /// queen, rook, bishop, knight, pawn; en passant last. A move onto an empty square or onto
    /// a king has none (-1).
    pub open spec fn capture_rank(self, m: Move) -> int {
        if m.move_kind() == MoveType::EnPassant {
            0
        } else {
            match self.at(m.dest_idx()) {
                Some((Piece::Queen, _)) => 5,
                Some((Piece::Rook, _)) => 4,
                Some((Piece::Bishop, _)) => 3,
                Some((Piece::Knight, _)) => 2,
                Some((Piece::Pawn, _)) => 1,
                _ => -1,
            }
        }
    }

    /// The moves `after` adds to `before` each take a queen, rook, bishop, knight or pawn, or
    /// are en passant, and come most valuable victim first, en passant last.
    pub open spec fn captures_in_order(self, before: Seq<Move>, after: Seq<Move>) -> bool {
        &&& forall|i: int| before.len() <= i < after.len() ==> 0 <= self.capture_rank(#[trigger] after[i])
        &&& forall|i: int, j: int|
            before.len() <= i < j < after.len() ==> self.capture_rank(#[trigger] after[i])
                >= self.capture_rank(#[trigger] after[j])
    }

    /// Every move `after` adds to `before` is a capture.
    pub open spec fn adds_captures(before: Seq<Move>, after: Seq<Move>) -> bool {
        forall|i: int| before.len() <= i < after.len() ==> #[trigger] after[i].move_kind().captures()
    }

    /// Adding captures to a list that only gained captures gains only captures.
    proof fn lemma_adds_captures_trans(self, a: Seq<Move>, b: Seq<Move>, c: Seq<Move>)
        requires
            self.extends(a, b),
            self.extends(b, c),
            Self::adds_captures(a, b),
            Self::adds_captures(b, c),
        ensures
            Self::adds_captures(a, c),
    {
        assert forall|i: int| a.len() <= i < c.len() implies #[trigger] c[i].move_kind().captures() by {
            if i < b.len() {
                assert(c.subrange(0, b.len() as int)[i] == b[i]);
            }
        }
    }

    /// A generated move other than castling is one that `make` accepts, en passant when the
    /// en-passant square is as a double push leaves it.
    pub proof fn lemma_generated_can_be_made(self, m: Move)
        requires
            self.generated(m),
            m.move_kind() != MoveType::KingsideCastle,
            m.move_kind() != MoveType::QueensideCastle,
            m.move_kind() == MoveType::EnPassant ==> self.ep_ready(),
        ensures
            self.move_ok(m),
    {
    }

    /// A list extends itself.
    pub proof fn lemma_extends_refl(self, a: Seq<Move>)
        ensures
            self.extends(a, a),
    {
        assert(a.subrange(0, a.len() as int) == a);
    }

    /// Extending is transitive.
    pub proof fn lemma_extends_trans(self, a: Seq<Move>, b: Seq<Move>, c: Seq<Move>)
        requires
            self.extends(a, b),
            self.extends(b, c),
        ensures
            self.extends(a, c),
    {
        assert(c.subrange(0, a.len() as int) == c.subrange(0, b.len() as int).subrange(0, a.len() as int));
        assert forall|i: int| a.len() <= i < c.len() implies self.generated(#[trigger] c[i]) by {
            if i < b.len() {
                assert(c[i] == c.subrange(0, b.len() as int)[i]);
                assert(self.generated(b[i]));
            }
        }
    }

    /// The king of the side to move is never the piece a pin holds.
    proof fn lemma_king_unpinned(self, p: int)
        requires
            self.rep().wf(),
            self.rep().has_king(self.turn()),
        ensures
            !pins_slot(self, p, self.rep().king_slot(self.turn())),
    {
        let ks = self.rep().king_slot(self.turn());
        if pins_slot(self, p, ks) {
            let (ps, dir, n) = pin_line(self, p).unwrap();
            let k = self.king_at(self.turn());
            let j = choose|j: int| 1 <= j < n && #[trigger] ray_sq(ps, dir, j) == self.rep().sq_of(ks);
            lemma_direction_ray(ps, k);
            crate::board::attacks::lemma_ray_injective(ps, dir, j, n);
        }
    }

    /// Add the move from `from` to `dest` unless a pin forbids it: a pinned piece may only move
    /// along its pin line.
    #[verifier::spinoff_prover]
    #[verifier::rlimit(40)]
    fn try_push_move(
        &self,
        v: &mut ArrayVec<[Move; 256]>,
        from: Square,
        dest: Square,
        kind: MoveType,
        pininfo: &PinInfo,
    )
        requires
            self.movable(from.index(), dest.index(), kind),
        ensures
            self.extends(moves_of(*old(v)), moves_of(*final(v))),
            moves_of(*final(v)).len() <= moves_of(*old(v)).len() + 1,
            self.pins_known(*pininfo) && moves_of(*final(v)).len() > moves_of(*old(v)).len() ==> self.respects_pin(
                from.index(),
                dest.index(),
            ),
            self.pins_known(*pininfo) && kind == MoveType::EnPassant && self.at(from.index()) is Some
                && self.respects_pin(from.index(), dest.index()) && moves_of(*final(v)).len() < 256 ==> lists(
                moves_of(*final(v)),
                from.index(),
                dest.index(),
                kind,
            ),
            forall|i: int|
                moves_of(*old(v)).len() <= i < moves_of(*final(v)).len() ==> #[trigger] moves_of(
                    *final(v),
                )[i].move_kind() == kind && moves_of(*final(v))[i].dest_idx() == dest.index()
                    && moves_of(*final(v))[i].from_idx() == from.index(),
            forall|base: Seq<Move>|
                #[trigger] self.extends(base, moves_of(*old(v))) ==> self.extends(
                    base,
                    moves_of(*final(v)),
                ),
            self.calm(*pininfo) && (from.index() == self.king_at(self.turn())
                ==> !self.rep().attacked_by(dest.index(), self.turn().other())) ==> self.adds_safe(
                moves_of(*old(v)),
                moves_of(*final(v)),
            ),
            self.pins_known(*pininfo) && self.answers_checks(from.index(), dest.index())
                ==> self.adds_safe(moves_of(*old(v)), moves_of(*final(v))),
            self.pins_known(*pininfo) && kind != MoveType::EnPassant && kind != MoveType::KingsideCastle
                && kind != MoveType::QueensideCastle && moves_of(*final(v)).len() < 256 ==> forall|m: Move|
                #[trigger] self.keeps_king_safe(m) && m.from_idx() == from.index() && m.dest_idx()
                    == dest.index() && m.move_kind() == kind ==> lists(
                    moves_of(*final(v)),
                    from.index(),
                    dest.index(),
                    kind,
                ),
            self.pins_known(*pininfo) && from.index() == self.king_at(self.turn()) && moves_of(
                *final(v),
            ).len() < 256 ==> lists(moves_of(*final(v)), from.index(), dest.index(), kind),
    {
        proof {
            use_type_invariant(self);
            self.lemma_extends_refl(moves_of(*v));
        }
        let ghost start = moves_of(*v);
        let piece_index = match self.data.piece_index(from) {
            Some(p) => p,
            None => {
                return;
            },
        };
        let ghost full = self.pins_known(*pininfo) && kind != MoveType::EnPassant && kind
            != MoveType::KingsideCastle && kind != MoveType::QueensideCastle;
        if let Some(dir) = pininfo.pins[piece_index.into_inner() as usize] {
            proof {
                if self.pins_known(*pininfo) && from.index() == self.king_at(self.turn()) {
                    lemma_slot_square(self.data, self.data.king_slot(self.side));
                    assert(pininfo.pins@[piece_index.index()] is Some);
                    let p = choose|p: int| pins_slot(*self, p, piece_index.index());
                    self.lemma_king_unpinned(p);
                }
            }
            let ghost pin = choose|p: int|
                pins_slot(*self, p, piece_index.index()) && pin_line(*self, p).unwrap().1 == dir;
            let move_dir = match from.direction(dest) {
                Some(d) => d,
                None => {
                    proof {
                        if self.pins_known(*pininfo) && self.respects_pin(from.index(), dest.index()) {
                            assert(pininfo.pins@[piece_index.index()] == Some(dir));
                            assert(exists|p: int| pins_slot(*self, p, piece_index.index()));
                            assert(self.rep().sq_of(piece_index.index()) == from.index());
                        }
                        if full {
                            assert(pininfo.pins@[piece_index.index()] == Some(dir));
                            assert forall|m: Move|
                                #[trigger] self.keeps_king_safe(m) && m.from_idx() == from.index()
                                    && m.dest_idx() == dest.index() && m.move_kind() == kind implies false by {
                                self.lemma_pinned_off_line(m, pin);
                            }
                        }
                    }
                    return;
                },
            };
            let opp = move_dir.opposite();
            if dir != move_dir && dir != opp {
                proof {
                    if self.pins_known(*pininfo) && self.respects_pin(from.index(), dest.index()) {
                        assert(pininfo.pins@[piece_index.index()] == Some(dir));
                        assert(exists|p: int| pins_slot(*self, p, piece_index.index()));
                        assert(self.rep().sq_of(piece_index.index()) == from.index());
                        lemma_pin_direction(*self, pin, piece_index.index());
                        if move_dir.dr() == dir.dr() && move_dir.df() == dir.df() {
                            crate::board::position::legality::lemma_direction_offsets(move_dir, dir);
                        }
                        if move_dir.dr() == -dir.dr() && move_dir.df() == -dir.df() {
                            crate::board::position::legality::lemma_direction_offsets(opp, dir);
                        }
                    }
                    if full {
                        assert(pininfo.pins@[piece_index.index()] == Some(dir));
                        assert forall|m: Move|
                            #[trigger] self.keeps_king_safe(m) && m.from_idx() == from.index()
                                && m.dest_idx() == dest.index() && m.move_kind() == kind implies false by {
                            if move_dir.dr() == dir.dr() && move_dir.df() == dir.df() {
                                crate::board::position::legality::lemma_direction_offsets(move_dir, dir);
                            }
                            if move_dir.dr() == -dir.dr() && move_dir.df() == -dir.df() {
                                crate::board::position::legality::lemma_direction_offsets(opp, dir);
                            }
                            self.lemma_pinned_off_line(m, pin);
                        }
                    }
                }
                return;
            }
            proof {
                if self.pins_known(*pininfo) {
                    lemma_pin_direction(*self, pin, piece_index.index());
                    assert(self.rep().sq_of(piece_index.index()) == from.index());
                    assert(self.respects_pin(from.index(), dest.index()));
                }
            }
        }
        proof {
            if self.pins_known(*pininfo) && pininfo.pins@[piece_index.index()] is None {
                assert(!(exists|p: int| pins_slot(*self, p, piece_index.index())));
            }
        }
        let m = Move::new(from, dest, kind);
        proof {
            if self.calm(*pininfo) && (from.index() == self.king_at(self.turn())
                ==> !self.rep().attacked_by(dest.index(), self.turn().other())) {
                assert(self.answers_checks(from.index(), dest.index()));
            }
            if self.pins_known(*pininfo) && self.answers_checks(from.index(), dest.index())
                && !self.safe_or_special(m) {
                if from.index() == self.king_at(self.turn()) {
                    self.lemma_king_step_safe(m);
                } else {
                    let i = piece_index.index();
                    if exists|p: int| pins_slot(*self, p, i) {
                        assert(pininfo.pins@[i] is Some);
                        let p = choose|p: int|
                            pins_slot(*self, p, i) && pin_line(*self, p).unwrap().1
                                == pininfo.pins@[i].unwrap();
                        lemma_pin_direction(*self, p, i);
                    }
                    self.lemma_pin_respecting_move_safe(m);
                }
            }
        }
        let ghost before = moves_of(*v);
        try_push(v, m);
        proof {
            assert(self.generated(m));
            assert(moves_of(*v).subrange(0, before.len() as int) == before);
            assert forall|base: Seq<Move>| #[trigger] self.extends(base, start) implies self.extends(
                base,
                moves_of(*v),
            ) by {
                self.lemma_extends_trans(base, start, moves_of(*v));
            }
            if moves_of(*v).len() < 256 {
                assert(moves_of(*v)[before.len() as int] == m);
            }
        }
    }

    /// Generate en-passant captures.
    fn generate_pawn_enpassant(&self, v: &mut ArrayVec<[Move; 256]>, pininfo: &PinInfo)
        ensures
            self.extends(moves_of(*old(v)), moves_of(*final(v))),
            all_en_passant(moves_of(*old(v)), moves_of(*final(v))),
            no_repeats(moves_of(*old(v)), moves_of(*final(v))),
            moves_of(*final(v)).len() <= moves_of(*old(v)).len() + 16,
            forall|i: int|
                moves_of(*old(v)).len() <= i < moves_of(*final(v)).len() ==> (self.at(
                    (#[trigger] moves_of(*final(v))[i]).from_idx(),
                ) matches Some(pc) && pc.0 == Piece::Pawn),
            Self::adds_captures(moves_of(*old(v)), moves_of(*final(v))),
            self.adds_safe(moves_of(*old(v)), moves_of(*final(v))),
            self.pins_known(*pininfo) && self.ep_pins_known(*pininfo) && self.ep_conditions() ==> self.ep_moves_safe(
                moves_of(*old(v)),
                moves_of(*final(v)),
            ),
            self.pins_known(*pininfo) && self.ep_pins_known(*pininfo) && self.ep_ready() ==> self.lists_ep(
                moves_of(*final(v)),
            ),
    {
        proof {
            use_type_invariant(self);
            self.lemma_extends_refl(moves_of(*v));
        }
        let ep = match self.ep {
            Some(ep) => ep,
            None => {
                return;
            },
        };
        let capturers = self.data.attacks_to(ep, self.side).and(self.data.piecemask().pawns()).and(
            pininfo.enpassant_pinned.invert(),
        );
        proof {
            assert forall|i: int| #[trigger] crate::board::bitlist::bit(capturers@, i) implies colour_of_index(i)
                == self.side by {
                assert(capturers.has(i));
            }
            crate::board::bitlist::lemma_popcount_one_colour(capturers@, self.side);
        }
        let mut it = capturers.into_iter();
        let ghost start = moves_of(*v);
        loop
            invariant
                self.data.wf(),
                self.ep == Some(ep),
                start == moves_of(*old(v)),
                self.extends(start, moves_of(*v)),
                all_en_passant(start, moves_of(*v)),
                no_repeats(start, moves_of(*v)),
                moves_of(*v).len() + popcount(it.rest()@) <= start.len() + popcount(capturers@),
                popcount(capturers@) <= 16,
                all_from_done(*self, start, moves_of(*v), capturers, it.rest()),
                Self::adds_captures(start, moves_of(*v)),
                self.adds_safe(start, moves_of(*v)),
                self.pins_known(*pininfo) && self.ep_pins_known(*pininfo) && self.ep_conditions() ==> self.ep_moves_safe(
                    start,
                    moves_of(*v),
                ),
                forall|i: int| #[trigger] capturers.has(i) ==> !pininfo.enpassant_pinned.has(i),
                forall|i: int|
                    #[trigger] capturers.has(i) <==> (self.data.attacked(ep.index(), i) && 0 <= i < 32
                        && colour_of_index(i) == self.side && self.data.mask().slot(i) == Some(Piece::Pawn)
                        && !pininfo.enpassant_pinned.has(i)),
                self.pins_known(*pininfo) && self.ep_pins_known(*pininfo) && self.ep_ready() && moves_of(*v).len()
                    < 256 ==> forall|m: Move|
                    #[trigger] self.generated(m) && m.move_kind() == MoveType::EnPassant && self.keeps_king_safe(m)
                        && (self.rep().slot_at(m.from_idx()) matches Some(c) && capturers.has(c) && !it.rest().has(c))
                        ==> lists(moves_of(*v), m.from_idx(), m.dest_idx(), m.move_kind()),
                forall|i: int| #[trigger] it.rest().has(i) ==> capturers.has(i),
                forall|i: int|
                    #[trigger] capturers.has(i) ==> self.data.attacked(ep.index(), i) && 0 <= i < 32
                        && colour_of_index(i) == self.side && self.data.kind(i) == Some(Piece::Pawn),
            ensures
                forall|i: int| !it.rest().has(i),
            decreases popcount(it.rest()@),
        {
            let ghost rest0 = it.rest();
            match it.next() {
                None => {
                    proof {
                        Bitlist::lemma_empty(it.rest());
                    }
                    break;
                },
                Some(capturer) => {
                    let from = self.data.square_of_piece(capturer);
                    proof {
                        assert(capturers.has(capturer.index()));
                        lemma_attacker(self.data, ep.index(), capturer.index());
                    }
                    let ghost mid = moves_of(*v);
                    self.try_push_move(v, from, ep, MoveType::EnPassant, pininfo);
                    proof {
                        if self.pins_known(*pininfo) && self.ep_pins_known(*pininfo) && self.ep_ready() && moves_of(*v).len() < 256 {
                            assert forall|mm: Move|
                                #[trigger] self.generated(mm) && mm.move_kind() == MoveType::EnPassant && self.keeps_king_safe(mm)
                                    && (self.rep().slot_at(mm.from_idx()) matches Some(c) && capturers.has(c)
                                    && !it.rest().has(c)) implies lists(moves_of(*v), mm.from_idx(), mm.dest_idx(), mm.move_kind()) by {
                                let c = self.rep().slot_at(mm.from_idx()).unwrap();
                                if c == capturer.index() {
                                    assert(self.rep().sq_of(c) == mm.from_idx());
                                    if !self.respects_pin(mm.from_idx(), mm.dest_idx()) {
                                        self.lemma_ep_off_pin_unsafe(mm);
                                    }
                                } else {
                                    assert(!rest0.has(c));
                                    crate::board::position::legality::lemma_lists_extend(
                                        mid,
                                        moves_of(*v),
                                        mm.from_idx(),
                                        mm.dest_idx(),
                                        mm.move_kind(),
                                    );
                                }
                            }
                        }
                        if self.pins_known(*pininfo) && self.ep_pins_known(*pininfo) && self.ep_conditions() {
                            assert forall|i: int| start.len() <= i < moves_of(*v).len() && (#[trigger] moves_of(
                                *v,
                            )[i]).move_kind() == MoveType::EnPassant implies self.keeps_king_safe(moves_of(*v)[i]) by {
                                if i < mid.len() {
                                    assert(moves_of(*v)[i] == moves_of(*v).subrange(0, mid.len() as int)[i]);
                                } else {
                                    let mm = moves_of(*v)[i];
                                    assert(self.generated(mm));
                                    assert(self.rep().slot_at(mm.from_idx()) == Some(capturer.index()));
                                    assert(!pininfo.enpassant_pinned.has(capturer.index()));
                                    self.lemma_ep_safe(mm);
                                }
                            }
                        }
                        lemma_slot_square(self.data, capturer.index());
                        lemma_no_repeats_one(mid, moves_of(*v));
                        lemma_no_repeats_join(
                            start,
                            mid,
                            moves_of(*v),
                            |m: Move| (self.rep().slot_at(m.from_idx()) matches Some(c) && !rest0.has(c)),
                        );
                        assert forall|i: int| start.len() <= i < moves_of(*v).len() implies (self.rep().slot_at(
                            (#[trigger] moves_of(*v)[i]).from_idx(),
                        ) matches Some(c) && capturers.has(c) && !it.rest().has(c)) by {
                            if i < mid.len() {
                                assert(moves_of(*v)[i] == moves_of(*v).subrange(0, mid.len() as int)[i]);
                            }
                        }
                        assert forall|i: int| start.len() <= i < moves_of(*v).len() implies
                            (#[trigger] moves_of(*v)[i]).move_kind() == MoveType::EnPassant by {
                            if i < mid.len() {
                                assert(moves_of(*v)[i] == moves_of(*v).subrange(0, mid.len() as int)[i]);
                            }
                        }
                        self.lemma_adds_captures_trans(start, mid, moves_of(*v));
                        assert forall|i: int| mid.len() <= i < moves_of(*v).len() implies
                            #[trigger] self.safe_or_special(moves_of(*v)[i]) by {
                            assert(moves_of(*v)[i].move_kind() == MoveType::EnPassant);
                        }
                        self.lemma_adds_safe_trans(start, mid, moves_of(*v));
                    }
                },
            }
        }
        proof {
            if self.pins_known(*pininfo) && self.ep_pins_known(*pininfo) && self.ep_ready() && moves_of(*v).len() < 256 {
                assert forall|mm: Move|
                    #[trigger] self.generated(mm) && mm.move_kind() == MoveType::EnPassant && self.keeps_king_safe(mm)
                        implies lists(moves_of(*v), mm.from_idx(), mm.dest_idx(), mm.move_kind()) by {
                    let f = mm.from_idx();
                    Move::lemma_fields_range(mm);
                    assert(mm.dest_idx() == ep.index());
                    assert(self.rep().attacker_at(f, ep.index(), self.turn()));
                    self.rep().lemma_attacker_recorded(f, ep.index(), self.turn());
                    let c = self.rep().slot_at(f).unwrap();
                    if pininfo.enpassant_pinned.has(c) {
                        let p = choose|p: int| ep_pins_slot(*self, p, c);
                        self.lemma_ep_pinned_unsafe(mm, p);
                    }
                    assert(capturers.has(c));
                }
            }
        }
    }

    /// Generate the pushes of the pawn on `from`: one square forward (promoting on the last
    /// rank) and, from its starting rank, two.
    #[verifier::spinoff_prover]
    #[verifier::rlimit(40)]
    fn generate_pawn_quiet(&self, v: &mut ArrayVec<[Move; 256]>, from: Square, pininfo: &PinInfo)
        requires
            self.at(from.index()) == Some((Piece::Pawn, self.turn())),
        ensures
            self.extends(moves_of(*old(v)), moves_of(*final(v))),
            self.calm(*pininfo) ==> self.adds_safe(moves_of(*old(v)), moves_of(*final(v))),
            self.pins_known(*pininfo) && moves_of(*final(v)).len() < 256 ==> forall|m: Move|
                #[trigger] self.sound_move(m) && !m.move_kind().captures() && m.from_idx() == from.index()
                    ==> lists(moves_of(*final(v)), m.from_idx(), m.dest_idx(), m.move_kind()),
            no_castling(moves_of(*old(v)), moves_of(*final(v))),
            no_repeats(moves_of(*old(v)), moves_of(*final(v))),
            forall|i: int|
                moves_of(*old(v)).len() <= i < moves_of(*final(v)).len() ==> (#[trigger] moves_of(*final(v))[i]).from_idx()
                    == from.index() && !moves_of(*final(v))[i].move_kind().captures(),
    {
        proof {
            use_type_invariant(self);
            self.lemma_extends_refl(moves_of(*v));
            if self.calm(*pininfo) {
                self.lemma_king_square();
            }
        }
        let ghost start = moves_of(*v);
        let ghost f = from.index();
        let ghost fwd = forward(self.turn());
        let dest = match from.relative_north(self.side) {
            Some(d) => d,
            None => {
                return;
            },
        };
        if self.data.has_piece(dest) {
            return;
        }
        let ghost m0 = moves_of(*v);
        if dest.rank().is_relative_eighth(self.side) {
            self.try_push_move(v, from, dest, MoveType::PromotionQueen, pininfo);
            let ghost m1 = moves_of(*v);
            self.try_push_move(v, from, dest, MoveType::PromotionKnight, pininfo);
            let ghost m2 = moves_of(*v);
            self.try_push_move(v, from, dest, MoveType::PromotionRook, pininfo);
            let ghost m3 = moves_of(*v);
            self.try_push_move(v, from, dest, MoveType::PromotionBishop, pininfo);
            proof {
                lemma_four_kinds(
                    m0,
                    m1,
                    m2,
                    m3,
                    moves_of(*v),
                    from.index(),
                    dest.index(),
                    MoveType::PromotionQueen,
                    MoveType::PromotionKnight,
                    MoveType::PromotionRook,
                    MoveType::PromotionBishop,
                );
                assert forall|i: int| m0.len() <= i < moves_of(*v).len() implies (#[trigger] moves_of(*v)[i]).move_kind()
                    != MoveType::DoublePush by {
                    assert(moves_of(*v)[i].move_kind().promotes());
                }
                lemma_no_castling_trans(m0, m1, m2);
                lemma_no_castling_trans(m0, m2, m3);
                lemma_no_castling_trans(m0, m3, moves_of(*v));
                if self.calm(*pininfo) {
                    self.lemma_adds_safe_trans(m0, m1, m2);
                    self.lemma_extends_trans(m0, m1, m2);
                    self.lemma_adds_safe_trans(m0, m2, m3);
                    self.lemma_extends_trans(m0, m2, m3);
                    self.lemma_adds_safe_trans(m0, m3, moves_of(*v));
                }
                self.lemma_extends_trans(m1, m2, m3);
                self.lemma_extends_trans(m1, m3, moves_of(*v));
                self.lemma_extends_trans(m2, m3, moves_of(*v));
                if self.pins_known(*pininfo) && moves_of(*v).len() < 256 {
                    assert forall|m: Move|
                        #[trigger] self.sound_move(m) && !m.move_kind().captures() && m.from_idx() == f && m.move_kind()
                            != MoveType::DoublePush implies lists(moves_of(*v), m.from_idx(), m.dest_idx(), m.move_kind()) by {
                        let kd = m.move_kind();
                        let w = moves_of(*v);
                        if kd == MoveType::PromotionQueen {
                            crate::board::position::legality::lemma_lists_extend(m1, w, m.from_idx(), m.dest_idx(), kd);
                        } else if kd == MoveType::PromotionKnight {
                            crate::board::position::legality::lemma_lists_extend(m2, w, m.from_idx(), m.dest_idx(), kd);
                        } else if kd == MoveType::PromotionRook {
                            crate::board::position::legality::lemma_lists_extend(m3, w, m.from_idx(), m.dest_idx(), kd);
                        }
                    }
                }
            }
        } else {
            self.try_push_move(v, from, dest, MoveType::Normal, pininfo);
        }
        let ghost mid = moves_of(*v);
        proof {
            assert(no_repeats(start, mid));
            assert(forall|i: int| start.len() <= i < mid.len() ==> (#[trigger] mid[i]).from_idx() == from.index()
                && mid[i].move_kind() != MoveType::DoublePush && !mid[i].move_kind().captures());
        }
        let dest2 = match dest.relative_north(self.side) {
            Some(d) => d,
            None => {
                return;
            },
        };
        if dest2.rank().is_relative_fourth(self.side) && !self.data.has_piece(dest2) {
            self.try_push_move(v, from, dest2, MoveType::DoublePush, pininfo);
            proof {
                lemma_no_repeats_one(mid, moves_of(*v));
                lemma_no_repeats_join(start, mid, moves_of(*v), |m: Move| m.move_kind() != MoveType::DoublePush);
                assert forall|i: int| start.len() <= i < moves_of(*v).len() implies (#[trigger] moves_of(*v)[i]).from_idx()
                    == from.index() && !moves_of(*v)[i].move_kind().captures() by {
                    if i < mid.len() {
                        assert(moves_of(*v)[i] == moves_of(*v).subrange(0, mid.len() as int)[i]);
                    }
                }
                lemma_no_castling_trans(start, mid, moves_of(*v));
                if self.calm(*pininfo) {
                    self.lemma_adds_safe_trans(start, mid, moves_of(*v));
                }
                if self.pins_known(*pininfo) && moves_of(*v).len() < 256 {
                    assert forall|m: Move|
                        #[trigger] self.sound_move(m) && !m.move_kind().captures() && m.from_idx() == f implies lists(
                        moves_of(*v),
                        m.from_idx(),
                        m.dest_idx(),
                        m.move_kind(),
                    ) by {
                        if m.move_kind() != MoveType::DoublePush {
                            crate::board::position::legality::lemma_lists_extend(
                                mid,
                                moves_of(*v),
                                m.from_idx(),
                                m.dest_idx(),
                                m.move_kind(),
                            );
                        }
                    }
                }
            }
        }
    }

    /// Add a capture on `dest` by each piece of `capturers`, which attack it.
    fn push_captures(
        &self,
        v: &mut ArrayVec<[Move; 256]>,
        capturers: Bitlist,
        dest: Square,
        pininfo: &PinInfo,
    )
        requires
            self.at(dest.index()) matches Some(pc) && pc.1 == self.turn().other(),
            forall|i: int|
                #[trigger] capturers.has(i) ==> self.rep().attacked(dest.index(), i) && 0 <= i < 32
                    && colour_of_index(i) == self.turn(),
        ensures
            self.extends(moves_of(*old(v)), moves_of(*final(v))),
            Self::adds_captures(moves_of(*old(v)), moves_of(*final(v))),
            all_onto(moves_of(*old(v)), moves_of(*final(v)), dest.index()),
            self.calm(*pininfo) && (self.rep().attacked_by(dest.index(), self.turn().other())
                ==> forall|i: int| #[trigger] capturers.has(i) ==> self.rep().kind(i) != Some(Piece::King))
                ==> self.adds_safe(moves_of(*old(v)), moves_of(*final(v))),
            self.pins_known(*pininfo) && moves_of(*final(v)).len() < 256 ==> forall|m: Move|
                #[trigger] self.sound_move(m) && m.dest_idx() == dest.index() && m.move_kind()
                    == MoveType::Capture && (self.rep().slot_at(m.from_idx()) matches Some(c) && capturers.has(c))
                    ==> lists(moves_of(*final(v)), m.from_idx(), m.dest_idx(), m.move_kind()),
            no_repeats(moves_of(*old(v)), moves_of(*final(v))),
            all_from(*self, moves_of(*old(v)), moves_of(*final(v)), capturers),
    {
        proof {
            use_type_invariant(self);
            self.lemma_extends_refl(moves_of(*v));
        }
        let mut it = capturers.into_iter();
        let ghost start = moves_of(*v);
        let ghost cond = self.calm(*pininfo) && (self.rep().attacked_by(dest.index(), self.turn().other())
            ==> forall|i: int| #[trigger] capturers.has(i) ==> self.rep().kind(i) != Some(Piece::King));
        loop
            invariant
                self.data.wf(),
                self.at(dest.index()) matches Some(pc) && pc.1 == self.turn().other(),
                start == moves_of(*old(v)),
                self.extends(start, moves_of(*v)),
                Self::adds_captures(start, moves_of(*v)),
                all_onto(start, moves_of(*v), dest.index()),
                no_repeats(start, moves_of(*v)),
                all_from_done(*self, start, moves_of(*v), capturers, it.rest()),
                cond == (self.calm(*pininfo) && (self.rep().attacked_by(dest.index(), self.turn().other())
                    ==> forall|i: int| #[trigger] capturers.has(i) ==> self.rep().kind(i) != Some(Piece::King))),
                cond ==> self.adds_safe(start, moves_of(*v)),
                self.pins_known(*pininfo) && moves_of(*v).len() < 256 ==> forall|m: Move|
                    #[trigger] self.sound_move(m) && m.dest_idx() == dest.index() && m.move_kind()
                        == MoveType::Capture && (self.rep().slot_at(m.from_idx()) matches Some(c) && capturers.has(c)
                        && !it.rest().has(c)) ==> lists(moves_of(*v), m.from_idx(), m.dest_idx(), m.move_kind()),
                forall|i: int| #[trigger] it.rest().has(i) ==> capturers.has(i),
                forall|i: int|
                    #[trigger] capturers.has(i) ==> self.data.attacked(dest.index(), i) && 0 <= i < 32
                        && colour_of_index(i) == self.side,
            ensures
                forall|i: int| !it.rest().has(i),
            decreases popcount(it.rest()@),
        {
            let ghost rest0 = it.rest();
            match it.next() {
                None => {
                    proof {
                        Bitlist::lemma_empty(it.rest());
                    }
                    break;
                },
                Some(capturer) => {
                    let from = self.data.square_of_piece(capturer);
                    proof {
                        assert(capturers.has(capturer.index()));
                        lemma_attacker(self.data, dest.index(), capturer.index());
                    }
                    let ghost mid = moves_of(*v);
                    let ghost rest_before = rest0;
                    proof {
                        if cond {
                            self.lemma_king_square();
                        }
                    }
                    self.try_push_move(v, from, dest, MoveType::Capture, pininfo);
                    proof {
                        lemma_slot_square(self.data, capturer.index());
                        lemma_no_repeats_one(mid, moves_of(*v));
                        lemma_no_repeats_join(
                            start,
                            mid,
                            moves_of(*v),
                            |m: Move| (self.rep().slot_at(m.from_idx()) matches Some(c) && !rest_before.has(c)),
                        );
                        assert forall|i: int| start.len() <= i < moves_of(*v).len() implies (self.rep().slot_at(
                            (#[trigger] moves_of(*v)[i]).from_idx(),
                        ) matches Some(c) && capturers.has(c) && !it.rest().has(c)) by {
                            if i < mid.len() {
                                assert(moves_of(*v)[i] == moves_of(*v).subrange(0, mid.len() as int)[i]);
                            }
                        }
                        self.lemma_adds_captures_trans(start, mid, moves_of(*v));
                        lemma_all_onto_trans(start, mid, moves_of(*v), dest.index());
                        if cond {
                            self.lemma_adds_safe_trans(start, mid, moves_of(*v));
                        }
                        if self.pins_known(*pininfo) && moves_of(*v).len() < 256 {
                            assert forall|m: Move|
                                #[trigger] self.sound_move(m) && m.dest_idx() == dest.index() && m.move_kind()
                                    == MoveType::Capture && (self.rep().slot_at(m.from_idx()) matches Some(c)
                                    && capturers.has(c) && !it.rest().has(c)) implies lists(
                                moves_of(*v),
                                m.from_idx(),
                                m.dest_idx(),
                                m.move_kind(),
                            ) by {
                                let c = self.rep().slot_at(m.from_idx()).unwrap();
                                if c == capturer.index() {
                                    assert(self.rep().sq_of(c) == m.from_idx());
                                } else {
                                    assert(!rest_before.has(c));
                                    crate::board::position::legality::lemma_lists_extend(
                                        mid,
                                        moves_of(*v),
                                        m.from_idx(),
                                        m.dest_idx(),
                                        m.move_kind(),
                                    );
                                }
                            }
                        }
                    }
                },
            }
        }
    }

    /// Add the captures of the enemy piece on `dest` by pawns (promoting on the last rank),
    /// pieces, and the king where the square is not defended.
    fn find_attackers(&self, v: &mut ArrayVec<[Move; 256]>, dest: Square, pininfo: &PinInfo)
        requires
            self.at(dest.index()) matches Some(pc) && pc.1 == self.turn().other(),
        ensures
            self.extends(moves_of(*old(v)), moves_of(*final(v))),
            Self::adds_captures(moves_of(*old(v)), moves_of(*final(v))),
            all_onto(moves_of(*old(v)), moves_of(*final(v)), dest.index()),
            self.calm(*pininfo) ==> self.adds_safe(moves_of(*old(v)), moves_of(*final(v))),
            self.pins_known(*pininfo) ==> self.lists_captures_on(moves_of(*final(v)), dest.index()),
            no_repeats(moves_of(*old(v)), moves_of(*final(v))),
    {
        proof {
            use_type_invariant(self);
            self.lemma_extends_refl(moves_of(*v));
        }
        let ghost start = moves_of(*v);
        let attacks = self.data.attacks_to(dest, self.side);
        let pm = self.data.piecemask();
        let pawns = attacks.and(pm.pawns());
        let promoting = dest.rank().is_relative_eighth(self.side);
        let mut it = pawns.into_iter();
        loop
            invariant
                self.data.wf(),
                *pm == self.data.mask(),
                self.at(dest.index()) matches Some(pc) && pc.1 == self.turn().other(),
                start == moves_of(*old(v)),
                self.extends(start, moves_of(*v)),
                Self::adds_captures(start, moves_of(*v)),
                all_onto(start, moves_of(*v), dest.index()),
                no_repeats(start, moves_of(*v)),
                all_from_done(*self, start, moves_of(*v), pawns, it.rest()),
                self.calm(*pininfo) ==> self.adds_safe(start, moves_of(*v)),
                promoting == last_rank(self.turn(), dest.index()),
                self.pins_known(*pininfo) && moves_of(*v).len() < 256 ==> forall|m: Move|
                    #[trigger] self.sound_move(m) && m.move_kind().captures() && m.dest_idx() == dest.index()
                        && (self.rep().slot_at(m.from_idx()) matches Some(c) && pawns.has(c) && !it.rest().has(c))
                        ==> lists(moves_of(*v), m.from_idx(), m.dest_idx(), m.move_kind()),
                forall|i: int| #[trigger] it.rest().has(i) ==> pawns.has(i),
                forall|i: int|
                    #[trigger] pawns.has(i) ==> self.data.attacked(dest.index(), i) && 0 <= i < 32
                        && colour_of_index(i) == self.side && self.data.kind(i) == Some(Piece::Pawn),
            ensures
                forall|i: int| !it.rest().has(i),
            decreases popcount(it.rest()@),
        {
            let ghost rest0 = it.rest();
            match it.next() {
                None => {
                    proof {
                        Bitlist::lemma_empty(it.rest());
                    }
                    break;
                },
                Some(capturer) => {
                    let from = self.data.square_of_piece(capturer);
                    proof {
                        assert(pawns.has(capturer.index()));
                        lemma_attacker(self.data, dest.index(), capturer.index());
                        if self.calm(*pininfo) {
                            self.lemma_king_square();
                        }
                    }
                    if promoting {
                        let ghost m0 = moves_of(*v);
                        self.try_push_move(v, from, dest, MoveType::CapturePromotionQueen, pininfo);
                        let ghost m1 = moves_of(*v);
                        self.try_push_move(v, from, dest, MoveType::CapturePromotionKnight, pininfo);
                        let ghost m2 = moves_of(*v);
                        self.try_push_move(v, from, dest, MoveType::CapturePromotionRook, pininfo);
                        let ghost m3 = moves_of(*v);
                        self.try_push_move(v, from, dest, MoveType::CapturePromotionBishop, pininfo);
                        proof {
                            lemma_slot_square(self.data, capturer.index());
                            lemma_four_kinds(
                                m0,
                                m1,
                                m2,
                                m3,
                                moves_of(*v),
                                from.index(),
                                dest.index(),
                                MoveType::CapturePromotionQueen,
                                MoveType::CapturePromotionKnight,
                                MoveType::CapturePromotionRook,
                                MoveType::CapturePromotionBishop,
                            );
                            self.lemma_extends_trans(m0, m1, m2);
                            self.lemma_extends_trans(m0, m2, m3);
                            self.lemma_extends_trans(m0, m3, moves_of(*v));
                            lemma_no_repeats_join(
                                start,
                                m0,
                                moves_of(*v),
                                |m: Move| (self.rep().slot_at(m.from_idx()) matches Some(c) && !rest0.has(c)),
                            );
                            assert forall|i: int| start.len() <= i < moves_of(*v).len() implies (self.rep().slot_at(
                                (#[trigger] moves_of(*v)[i]).from_idx(),
                            ) matches Some(c) && pawns.has(c) && !it.rest().has(c)) by {
                                if i < m0.len() {
                                    assert(moves_of(*v)[i] == moves_of(*v).subrange(0, m0.len() as int)[i]);
                                }
                            }
                            self.lemma_adds_captures_trans(start, m0, m1);
                            lemma_all_onto_trans(start, m0, m1, dest.index());
                            if self.calm(*pininfo) {
                                self.lemma_adds_safe_trans(start, m0, m1);
                            }
                            self.lemma_extends_trans(start, m0, m1);
                            self.lemma_adds_captures_trans(start, m1, m2);
                            lemma_all_onto_trans(start, m1, m2, dest.index());
                            if self.calm(*pininfo) {
                                self.lemma_adds_safe_trans(start, m1, m2);
                            }
                            self.lemma_extends_trans(start, m1, m2);
                            self.lemma_adds_captures_trans(start, m2, m3);
                            lemma_all_onto_trans(start, m2, m3, dest.index());
                            if self.calm(*pininfo) {
                                self.lemma_adds_safe_trans(start, m2, m3);
                            }
                            self.lemma_extends_trans(start, m2, m3);
                            self.lemma_adds_captures_trans(start, m3, moves_of(*v));
                            lemma_all_onto_trans(start, m3, moves_of(*v), dest.index());
                            if self.calm(*pininfo) {
                                self.lemma_adds_safe_trans(start, m3, moves_of(*v));
                            }
                            if self.pins_known(*pininfo) && moves_of(*v).len() < 256 {
                                self.lemma_extends_trans(m1, m2, m3);
                                self.lemma_extends_trans(m1, m3, moves_of(*v));
                                self.lemma_extends_trans(m2, m3, moves_of(*v));
                                self.lemma_extends_trans(m0, m1, moves_of(*v));
                                assert forall|m: Move|
                                    #[trigger] self.sound_move(m) && m.move_kind().captures() && m.dest_idx()
                                        == dest.index() && (self.rep().slot_at(m.from_idx()) matches Some(c)
                                        && pawns.has(c) && !it.rest().has(c)) implies lists(
                                    moves_of(*v),
                                    m.from_idx(),
                                    m.dest_idx(),
                                    m.move_kind(),
                                ) by {
                                    let c = self.rep().slot_at(m.from_idx()).unwrap();
                                    let w = moves_of(*v);
                                    if c == capturer.index() {
                                        assert(self.rep().sq_of(c) == m.from_idx());
                                        let kd = m.move_kind();
                                        if kd == MoveType::CapturePromotionQueen {
                                            crate::board::position::legality::lemma_lists_extend(m1, w, m.from_idx(), m.dest_idx(), kd);
                                        } else if kd == MoveType::CapturePromotionKnight {
                                            crate::board::position::legality::lemma_lists_extend(m2, w, m.from_idx(), m.dest_idx(), kd);
                                        } else if kd == MoveType::CapturePromotionRook {
                                            crate::board::position::legality::lemma_lists_extend(m3, w, m.from_idx(), m.dest_idx(), kd);
                                        }
                                    } else {
                                        assert(!rest0.has(c));
                                        crate::board::position::legality::lemma_lists_extend(m0, w, m.from_idx(), m.dest_idx(), m.move_kind());
                                    }
                                }
                            }
                        }
                    } else {
                        let ghost m0 = moves_of(*v);
                        self.try_push_move(v, from, dest, MoveType::Capture, pininfo);
                        proof {
                            lemma_slot_square(self.data, capturer.index());
                            lemma_no_repeats_one(m0, moves_of(*v));
                            lemma_no_repeats_join(
                                start,
                                m0,
                                moves_of(*v),
                                |m: Move| (self.rep().slot_at(m.from_idx()) matches Some(c) && !rest0.has(c)),
                            );
                            assert forall|i: int| start.len() <= i < moves_of(*v).len() implies (self.rep().slot_at(
                                (#[trigger] moves_of(*v)[i]).from_idx(),
                            ) matches Some(c) && pawns.has(c) && !it.rest().has(c)) by {
                                if i < m0.len() {
                                    assert(moves_of(*v)[i] == moves_of(*v).subrange(0, m0.len() as int)[i]);
                                }
                            }
                            self.lemma_adds_captures_trans(start, m0, moves_of(*v));
                            lemma_all_onto_trans(start, m0, moves_of(*v), dest.index());
                            if self.calm(*pininfo) {
                                self.lemma_adds_safe_trans(start, m0, moves_of(*v));
                            }
                            if self.pins_known(*pininfo) && moves_of(*v).len() < 256 {
                                assert forall|m: Move|
                                    #[trigger] self.sound_move(m) && m.move_kind().captures() && m.dest_idx()
                                        == dest.index() && (self.rep().slot_at(m.from_idx()) matches Some(c)
                                        && pawns.has(c) && !it.rest().has(c)) implies lists(
                                    moves_of(*v),
                                    m.from_idx(),
                                    m.dest_idx(),
                                    m.move_kind(),
                                ) by {
                                    let c = self.rep().slot_at(m.from_idx()).unwrap();
                                    if c == capturer.index() {
                                        assert(self.rep().sq_of(c) == m.from_idx());
                                    } else {
                                        assert(!rest0.has(c));
                                        crate::board::position::legality::lemma_lists_extend(m0, moves_of(*v), m.from_idx(), m.dest_idx(), m.move_kind());
                                    }
                                }
                            }
                        }
                    }
                },
            }
        }
        let ghost a_p = moves_of(*v);
        proof {
            assert forall|i: int| start.len() <= i < a_p.len() implies (self.at((#[trigger] a_p[i]).from_idx()) matches Some(
                pc,
            ) && piece_rank(pc.0) < 1) by {
                let c = self.rep().slot_at(a_p[i].from_idx()).unwrap();
                assert(pawns.has(c));
            }
        }
        let knights = attacks.and(pm.knights());
        self.push_captures(v, knights, dest, pininfo);
        let ghost a_n = moves_of(*v);
        proof {
            assert forall|i: int| a_p.len() <= i < moves_of(*v).len() implies (self.at(
                (#[trigger] moves_of(*v)[i]).from_idx(),
            ) matches Some(pc) && piece_rank(pc.0) == 1) by {
                let c = self.rep().slot_at(moves_of(*v)[i].from_idx()).unwrap();
                assert(knights.has(c));
                assert(pm.slot(c) == self.rep().kind(c));
            }
            lemma_join_rank(*self, start, a_p, moves_of(*v), 1);
            self.lemma_adds_captures_trans(start, a_p, moves_of(*v));
            lemma_all_onto_trans(start, a_p, moves_of(*v), dest.index());
            if self.calm(*pininfo) {
                self.lemma_adds_safe_trans(start, a_p, moves_of(*v));
            }
            self.lemma_extends_trans(start, a_p, moves_of(*v));
        }
        let bishops = attacks.and(pm.bishops());
        self.push_captures(v, bishops, dest, pininfo);
        let ghost a_b = moves_of(*v);
        proof {
            assert forall|i: int| a_n.len() <= i < moves_of(*v).len() implies (self.at(
                (#[trigger] moves_of(*v)[i]).from_idx(),
            ) matches Some(pc) && piece_rank(pc.0) == 2) by {
                let c = self.rep().slot_at(moves_of(*v)[i].from_idx()).unwrap();
                assert(bishops.has(c));
                assert(pm.slot(c) == self.rep().kind(c));
            }
            lemma_join_rank(*self, start, a_n, moves_of(*v), 2);
            self.lemma_adds_captures_trans(start, a_n, moves_of(*v));
            lemma_all_onto_trans(start, a_n, moves_of(*v), dest.index());
            if self.calm(*pininfo) {
                self.lemma_adds_safe_trans(start, a_n, moves_of(*v));
            }
            self.lemma_extends_trans(start, a_n, moves_of(*v));
        }
        let rooks = attacks.and(pm.rooks());
        self.push_captures(v, rooks, dest, pininfo);
        let ghost a_r = moves_of(*v);
        proof {
            assert forall|i: int| a_b.len() <= i < moves_of(*v).len() implies (self.at(
                (#[trigger] moves_of(*v)[i]).from_idx(),
            ) matches Some(pc) && piece_rank(pc.0) == 3) by {
                let c = self.rep().slot_at(moves_of(*v)[i].from_idx()).unwrap();
                assert(rooks.has(c));
                assert(pm.slot(c) == self.rep().kind(c));
            }
            lemma_join_rank(*self, start, a_b, moves_of(*v), 3);
            self.lemma_adds_captures_trans(start, a_b, moves_of(*v));
            lemma_all_onto_trans(start, a_b, moves_of(*v), dest.index());
            if self.calm(*pininfo) {
                self.lemma_adds_safe_trans(start, a_b, moves_of(*v));
            }
            self.lemma_extends_trans(start, a_b, moves_of(*v));
        }
        let queens = attacks.and(pm.queens());
        self.push_captures(v, queens, dest, pininfo);
        let ghost a_q = moves_of(*v);
        proof {
            assert forall|i: int| a_r.len() <= i < moves_of(*v).len() implies (self.at(
                (#[trigger] moves_of(*v)[i]).from_idx(),
            ) matches Some(pc) && piece_rank(pc.0) == 4) by {
                let c = self.rep().slot_at(moves_of(*v)[i].from_idx()).unwrap();
                assert(queens.has(c));
                assert(pm.slot(c) == self.rep().kind(c));
            }
            lemma_join_rank(*self, start, a_r, moves_of(*v), 4);
            self.lemma_adds_captures_trans(start, a_r, moves_of(*v));
            lemma_all_onto_trans(start, a_r, moves_of(*v), dest.index());
            if self.calm(*pininfo) {
                self.lemma_adds_safe_trans(start, a_r, moves_of(*v));
            }
            self.lemma_extends_trans(start, a_r, moves_of(*v));
        }
        // The king may take only an undefended piece.
        let defenders = self.data.attacks_to(dest, self.side.not());
        let kings = attacks.and(pm.kings());
        if defenders.empty() {
            proof {
                Bitlist::lemma_empty(defenders);
                self.data.lemma_attacked_by(dest.index(), self.side.other());
            }
            self.push_captures(v, kings, dest, pininfo);
            proof {
                assert forall|i: int| a_q.len() <= i < moves_of(*v).len() implies (self.at(
                    (#[trigger] moves_of(*v)[i]).from_idx(),
                ) matches Some(pc) && piece_rank(pc.0) == 5) by {
                    let c = self.rep().slot_at(moves_of(*v)[i].from_idx()).unwrap();
                    assert(kings.has(c));
                    assert(pm.slot(c) == self.rep().kind(c));
                }
                lemma_join_rank(*self, start, a_q, moves_of(*v), 5);
                self.lemma_adds_captures_trans(start, a_q, moves_of(*v));
                lemma_all_onto_trans(start, a_q, moves_of(*v), dest.index());
                if self.calm(*pininfo) {
                    self.lemma_adds_safe_trans(start, a_q, moves_of(*v));
                }
                self.lemma_extends_trans(start, a_q, moves_of(*v));
            }
        } else {
            proof {
                Bitlist::lemma_empty(defenders);
                let i = choose|i: int| defenders.has(i);
                assert(defenders.has(i));
                assert(0 <= i < 32 && colour_of_index(i) == self.turn().other());
                assert(self.rep().attacked(dest.index(), i));
                self.data.lemma_attacked_by(dest.index(), self.side.other());
                self.lemma_extends_refl(moves_of(*v));
            }
        }
        proof {
            let fin = moves_of(*v);
            if self.pins_known(*pininfo) && fin.len() < 256 {
                self.lemma_king_square();
                self.lemma_extends_trans(a_p, a_n, a_b);
                self.lemma_extends_trans(a_p, a_b, a_r);
                self.lemma_extends_trans(a_p, a_r, a_q);
                self.lemma_extends_trans(a_p, a_q, fin);
                self.lemma_extends_trans(a_n, a_b, a_r);
                self.lemma_extends_trans(a_n, a_r, a_q);
                self.lemma_extends_trans(a_n, a_q, fin);
                self.lemma_extends_trans(a_b, a_r, a_q);
                self.lemma_extends_trans(a_b, a_q, fin);
                self.lemma_extends_trans(a_r, a_q, fin);
                let side = self.turn();
                assert forall|m: Move|
                    #[trigger] self.sound_move(m) && m.move_kind().captures() && m.dest_idx() == dest.index()
                        implies lists(fin, m.from_idx(), m.dest_idx(), m.move_kind()) by {
                    let fr = m.from_idx();
                    let kd = m.move_kind();
                    Move::lemma_fields_range(m);
                    assert(self.rep().attacker_at(fr, dest.index(), side));
                    self.rep().lemma_attacker_recorded(fr, dest.index(), side);
                    let c = self.rep().slot_at(fr).unwrap();
                    assert(attacks.has(c));
                    let pk = self.at(fr).unwrap().0;
                    assert(pm.slot(c) == self.rep().kind(c));
                    assert(self.rep().kind(c) == Some(pk));
                    if pk == Piece::Pawn {
                        assert(pawns.has(c));
                        crate::board::position::legality::lemma_lists_extend(a_p, fin, fr, dest.index(), kd);
                    } else if pk == Piece::Knight {
                        assert(knights.has(c));
                        crate::board::position::legality::lemma_lists_extend(a_n, fin, fr, dest.index(), kd);
                    } else if pk == Piece::Bishop {
                        assert(bishops.has(c));
                        crate::board::position::legality::lemma_lists_extend(a_b, fin, fr, dest.index(), kd);
                    } else if pk == Piece::Rook {
                        assert(rooks.has(c));
                        crate::board::position::legality::lemma_lists_extend(a_r, fin, fr, dest.index(), kd);
                    } else if pk == Piece::Queen {
                        assert(queens.has(c));
                        crate::board::position::legality::lemma_lists_extend(a_q, fin, fr, dest.index(), kd);
                    } else {
                        assert(kings.has(c));
                        if defenders@ != 0 {
                            self.lemma_king_step_attacked(m);
                        }
                    }
                }
            }
        }
    }

    /// Add the captures of each enemy piece in `victims`.
    fn capture_victims(&self, v: &mut ArrayVec<[Move; 256]>, victims: Bitlist, pininfo: &PinInfo)
        requires
            forall|i: int|
                #[trigger] victims.has(i) ==> self.rep().live(i) && colour_of_index(i)
                    == self.turn().other(),
        ensures
            self.extends(moves_of(*old(v)), moves_of(*final(v))),
            Self::adds_captures(moves_of(*old(v)), moves_of(*final(v))),
            all_take(*self, moves_of(*old(v)), moves_of(*final(v)), victims),
            self.calm(*pininfo) ==> self.adds_safe(moves_of(*old(v)), moves_of(*final(v))),
            self.pins_known(*pininfo) && moves_of(*final(v)).len() < 256 ==> forall|m: Move|
                #[trigger] self.sound_move(m) && m.move_kind().captures() && (self.rep().slot_at(m.dest_idx()) matches Some(
                    vi,
                ) && victims.has(vi)) ==> lists(moves_of(*final(v)), m.from_idx(), m.dest_idx(), m.move_kind()),
            no_repeats(moves_of(*old(v)), moves_of(*final(v))),
    {
        proof {
            use_type_invariant(self);
            self.lemma_extends_refl(moves_of(*v));
        }
        let ghost start = moves_of(*v);
        let mut it = victims.into_iter();
        loop
            invariant
                self.data.wf(),
                start == moves_of(*old(v)),
                self.extends(start, moves_of(*v)),
                Self::adds_captures(start, moves_of(*v)),
                all_take(*self, start, moves_of(*v), victims),
                no_repeats(start, moves_of(*v)),
                forall|i: int|
                    start.len() <= i < moves_of(*v).len() ==> (self.rep().slot_at(
                        (#[trigger] moves_of(*v)[i]).dest_idx(),
                    ) matches Some(vi) && !it.rest().has(vi)),
                self.calm(*pininfo) ==> self.adds_safe(start, moves_of(*v)),
                forall|i: int| #[trigger] it.rest().has(i) ==> victims.has(i),
                forall|i: int|
                    #[trigger] victims.has(i) ==> self.data.live(i) && colour_of_index(i)
                        == self.side.other(),
                self.pins_known(*pininfo) && moves_of(*v).len() < 256 ==> forall|m: Move|
                    #[trigger] self.sound_move(m) && m.move_kind().captures() && (self.rep().slot_at(
                        m.dest_idx(),
                    ) matches Some(vi) && victims.has(vi) && !it.rest().has(vi)) ==> lists(
                        moves_of(*v),
                        m.from_idx(),
                        m.dest_idx(),
                        m.move_kind(),
                    ),
            ensures
                forall|i: int| !it.rest().has(i),
            decreases popcount(it.rest()@),
        {
            let ghost rest0 = it.rest();
            match it.next() {
                None => {
                    proof {
                        Bitlist::lemma_empty(it.rest());
                    }
                    break;
                },
                Some(victim) => {
                    proof {
                        assert(victims.has(victim.index()));
                        lemma_slot_square(self.data, victim.index());
                    }
                    let dest = self.data.square_of_piece(victim);
                    let ghost mid = moves_of(*v);
                    self.find_attackers(v, dest, pininfo);
                    proof {
                        self.lemma_adds_captures_trans(start, mid, moves_of(*v));
                        assert(self.rep().slot_at(dest.index()) == Some(victim.index()));
                        lemma_no_repeats_join(
                            start,
                            mid,
                            moves_of(*v),
                            |m: Move| (self.rep().slot_at(m.dest_idx()) matches Some(vi) && !rest0.has(vi)),
                        );
                        assert forall|i: int| start.len() <= i < moves_of(*v).len() implies (self.rep().slot_at(
                            (#[trigger] moves_of(*v)[i]).dest_idx(),
                        ) matches Some(vi) && !it.rest().has(vi)) by {
                            if i < mid.len() {
                                assert(moves_of(*v)[i] == moves_of(*v).subrange(0, mid.len() as int)[i]);
                            }
                        }
                        assert forall|i: int| start.len() <= i < moves_of(*v).len() implies (self.rep().slot_at(
                            (#[trigger] moves_of(*v)[i]).dest_idx(),
                        ) matches Some(vi) && victims.has(vi)) && moves_of(*v)[i].move_kind() != MoveType::EnPassant by {
                            if i < mid.len() {
                                assert(moves_of(*v)[i] == moves_of(*v).subrange(0, mid.len() as int)[i]);
                            } else {
                                assert(moves_of(*v)[i].dest_idx() == dest.index());
                            }
                        }
                        if self.calm(*pininfo) {
                            self.lemma_adds_safe_trans(start, mid, moves_of(*v));
                        }
                        self.lemma_extends_trans(start, mid, moves_of(*v));
                        if self.pins_known(*pininfo) && moves_of(*v).len() < 256 {
                            assert forall|m: Move|
                                #[trigger] self.sound_move(m) && m.move_kind().captures() && (self.rep().slot_at(
                                    m.dest_idx(),
                                ) matches Some(vi) && victims.has(vi) && !it.rest().has(vi)) implies lists(
                                moves_of(*v),
                                m.from_idx(),
                                m.dest_idx(),
                                m.move_kind(),
                            ) by {
                                let vi = self.rep().slot_at(m.dest_idx()).unwrap();
                                Move::lemma_fields_range(m);
                                if vi == victim.index() {
                                    assert(self.rep().sq_of(vi) == m.dest_idx());
                                } else {
                                    assert(!rest0.has(vi));
                                    crate::board::position::legality::lemma_lists_extend(
                                        mid,
                                        moves_of(*v),
                                        m.from_idx(),
                                        m.dest_idx(),
                                        m.move_kind(),
                                    );
                                }
                            }
                        }
                    }
                },
            }
        }
    }

    /// Generate the captures, most valuable victim first, then en passant.
    pub fn generate_captures(&self, v: &mut ArrayVec<[Move; 256]>)
        requires
            self.rep().has_king(self.turn()),
        ensures
            self.extends(moves_of(*old(v)), moves_of(*final(v))),
            Self::adds_captures(moves_of(*old(v)), moves_of(*final(v))),
            !self.checked() ==> self.adds_safe(moves_of(*old(v)), moves_of(*final(v))),
            self.lists_captures(moves_of(*final(v))),
            self.captures_in_order(moves_of(*old(v)), moves_of(*final(v))),
            no_repeats(moves_of(*old(v)), moves_of(*final(v))),
            self.ep_conditions() ==> self.ep_moves_safe(moves_of(*old(v)), moves_of(*final(v))),
            self.ep_ready() ==> self.lists_ep(moves_of(*final(v))),
    {
        proof {
            use_type_invariant(self);
            self.lemma_extends_refl(moves_of(*v));
        }
        let pininfo = PinInfo::discover(self);
        self.generate_captures_with(v, &pininfo);
    }

    /// Generate the captures given the pins of the position.
    fn generate_captures_with(&self, v: &mut ArrayVec<[Move; 256]>, pininfo: &PinInfo)
        ensures
            self.extends(moves_of(*old(v)), moves_of(*final(v))),
            Self::adds_captures(moves_of(*old(v)), moves_of(*final(v))),
            self.calm(*pininfo) ==> self.adds_safe(moves_of(*old(v)), moves_of(*final(v))),
            self.pins_known(*pininfo) ==> self.lists_captures(moves_of(*final(v))),
            self.captures_in_order(moves_of(*old(v)), moves_of(*final(v))),
            no_repeats(moves_of(*old(v)), moves_of(*final(v))),
            self.pins_known(*pininfo) && self.ep_pins_known(*pininfo) && self.ep_conditions() ==> self.ep_moves_safe(
                moves_of(*old(v)),
                moves_of(*final(v)),
            ),            self.pins_known(*pininfo) && self.ep_pins_known(*pininfo) && self.ep_ready() ==> self.lists_ep(
                moves_of(*final(v)),
            ),
    {
        proof {
            use_type_invariant(self);
            self.lemma_extends_refl(moves_of(*v));
        }
        let ghost start = moves_of(*v);
        let pm = self.data.piecemask();
        let enemy = pm.pieces_of_colour(self.side.not());
        let ghost mid = moves_of(*v);
        let victims_queens = enemy.and(pm.queens());
        self.capture_victims(v, victims_queens, pininfo);
        let ghost after_queens = moves_of(*v);
        proof {
            assert forall|i: int| mid.len() <= i < after_queens.len() implies self.capture_rank(
                #[trigger] after_queens[i],
            ) == 5 by {
                let vi = self.rep().slot_at(after_queens[i].dest_idx()).unwrap();
                assert(victims_queens.has(vi));
                assert(pm.slot(vi) == self.rep().kind(vi));
            }
            self.lemma_join_capture_rank(start, mid, after_queens, 5);
            self.lemma_adds_captures_trans(start, mid, moves_of(*v));
            if self.calm(*pininfo) {
                self.lemma_adds_safe_trans(start, mid, moves_of(*v));
            }
            self.lemma_extends_trans(start, mid, moves_of(*v));
        }
        let ghost mid = moves_of(*v);
        let victims_rooks = enemy.and(pm.rooks());
        self.capture_victims(v, victims_rooks, pininfo);
        let ghost after_rooks = moves_of(*v);
        proof {
            assert forall|i: int| mid.len() <= i < after_rooks.len() implies self.capture_rank(
                #[trigger] after_rooks[i],
            ) == 4 by {
                let vi = self.rep().slot_at(after_rooks[i].dest_idx()).unwrap();
                assert(victims_rooks.has(vi));
                assert(pm.slot(vi) == self.rep().kind(vi));
            }
            self.lemma_join_capture_rank(start, mid, after_rooks, 4);
            self.lemma_adds_captures_trans(start, mid, moves_of(*v));
            if self.calm(*pininfo) {
                self.lemma_adds_safe_trans(start, mid, moves_of(*v));
            }
            self.lemma_extends_trans(start, mid, moves_of(*v));
        }
        let ghost mid = moves_of(*v);
        let victims_bishops = enemy.and(pm.bishops());
        self.capture_victims(v, victims_bishops, pininfo);
        let ghost after_bishops = moves_of(*v);
        proof {
            assert forall|i: int| mid.len() <= i < after_bishops.len() implies self.capture_rank(
                #[trigger] after_bishops[i],
            ) == 3 by {
                let vi = self.rep().slot_at(after_bishops[i].dest_idx()).unwrap();
                assert(victims_bishops.has(vi));
                assert(pm.slot(vi) == self.rep().kind(vi));
            }
            self.lemma_join_capture_rank(start, mid, after_bishops, 3);
            self.lemma_adds_captures_trans(start, mid, moves_of(*v));
            if self.calm(*pininfo) {
                self.lemma_adds_safe_trans(start, mid, moves_of(*v));
            }
            self.lemma_extends_trans(start, mid, moves_of(*v));
        }
        let ghost mid = moves_of(*v);
        let victims_knights = enemy.and(pm.knights());
        self.capture_victims(v, victims_knights, pininfo);
        let ghost after_knights = moves_of(*v);
        proof {
            assert forall|i: int| mid.len() <= i < after_knights.len() implies self.capture_rank(
                #[trigger] after_knights[i],
            ) == 2 by {
                let vi = self.rep().slot_at(after_knights[i].dest_idx()).unwrap();
                assert(victims_knights.has(vi));
                assert(pm.slot(vi) == self.rep().kind(vi));
            }
            self.lemma_join_capture_rank(start, mid, after_knights, 2);
            self.lemma_adds_captures_trans(start, mid, moves_of(*v));
            if self.calm(*pininfo) {
                self.lemma_adds_safe_trans(start, mid, moves_of(*v));
            }
            self.lemma_extends_trans(start, mid, moves_of(*v));
        }
        let ghost mid = moves_of(*v);
        let victims_pawns = enemy.and(pm.pawns());
        self.capture_victims(v, victims_pawns, pininfo);
        let ghost after_pawns = moves_of(*v);
        proof {
            assert forall|i: int| mid.len() <= i < after_pawns.len() implies self.capture_rank(
                #[trigger] after_pawns[i],
            ) == 1 by {
                let vi = self.rep().slot_at(after_pawns[i].dest_idx()).unwrap();
                assert(victims_pawns.has(vi));
                assert(pm.slot(vi) == self.rep().kind(vi));
            }
            self.lemma_join_capture_rank(start, mid, after_pawns, 1);
            self.lemma_adds_captures_trans(start, mid, moves_of(*v));
            if self.calm(*pininfo) {
                self.lemma_adds_safe_trans(start, mid, moves_of(*v));
            }
            self.lemma_extends_trans(start, mid, moves_of(*v));
        }
        let ghost mid = moves_of(*v);
        self.generate_pawn_enpassant(v, pininfo);
        proof {
            let fin = moves_of(*v);
            self.lemma_join_capture_rank(start, after_pawns, fin, 0);
            if self.pins_known(*pininfo) && self.ep_pins_known(*pininfo) && self.ep_conditions() {
                assert forall|i: int| start.len() <= i < fin.len() && (#[trigger] fin[i]).move_kind()
                    == MoveType::EnPassant implies self.keeps_king_safe(fin[i]) by {
                    if i < after_pawns.len() {
                        assert(fin[i] == fin.subrange(0, after_pawns.len() as int)[i]);
                        assert(self.capture_rank(after_pawns[i]) >= 1);
                    }
                }
            }
            self.lemma_extends_trans(after_knights, after_pawns, fin);
            self.lemma_extends_trans(after_bishops, after_knights, fin);
            self.lemma_extends_trans(after_rooks, after_bishops, fin);
            self.lemma_extends_trans(after_queens, after_rooks, fin);
            assert forall|i: int| start.len() <= i < fin.len() implies self.capture_rank(#[trigger] fin[i]) == (
            if i < after_queens.len() {
                5int
            } else if i < after_rooks.len() {
                4int
            } else if i < after_bishops.len() {
                3int
            } else if i < after_knights.len() {
                2int
            } else if i < after_pawns.len() {
                1int
            } else {
                0int
            }) by {
                if i < after_queens.len() {
                    assert(fin[i] == fin.subrange(0, after_queens.len() as int)[i]);
                } else if i < after_rooks.len() {
                    assert(fin[i] == fin.subrange(0, after_rooks.len() as int)[i]);
                } else if i < after_bishops.len() {
                    assert(fin[i] == fin.subrange(0, after_bishops.len() as int)[i]);
                } else if i < after_knights.len() {
                    assert(fin[i] == fin.subrange(0, after_knights.len() as int)[i]);
                } else if i < after_pawns.len() {
                    assert(fin[i] == fin.subrange(0, after_pawns.len() as int)[i]);
                }
            }
        }
        proof {
            self.lemma_adds_captures_trans(start, mid, moves_of(*v));
            if self.calm(*pininfo) {
                self.lemma_adds_safe_trans(start, mid, moves_of(*v));
            }
            self.lemma_extends_trans(start, mid, moves_of(*v));
        }
        proof {
            let fin = moves_of(*v);
            if self.pins_known(*pininfo) && fin.len() < 256 {
                self.lemma_extends_trans(after_queens, after_rooks, after_bishops);
                self.lemma_extends_trans(after_queens, after_bishops, after_knights);
                self.lemma_extends_trans(after_queens, after_knights, after_pawns);
                self.lemma_extends_trans(after_queens, after_pawns, fin);
                self.lemma_extends_trans(after_rooks, after_bishops, after_knights);
                self.lemma_extends_trans(after_rooks, after_knights, after_pawns);
                self.lemma_extends_trans(after_rooks, after_pawns, fin);
                self.lemma_extends_trans(after_bishops, after_knights, after_pawns);
                self.lemma_extends_trans(after_bishops, after_pawns, fin);
                self.lemma_extends_trans(after_knights, after_pawns, fin);
                assert forall|m: Move|
                    #[trigger] self.sound_move(m) && m.move_kind().captures() && self.at(m.dest_idx()).unwrap().0
                        != Piece::King implies lists(fin, m.from_idx(), m.dest_idx(), m.move_kind()) by {
                    let d = m.dest_idx();
                    let kd = m.move_kind();
                    Move::lemma_fields_range(m);
                    let vi = self.rep().slot_at(d).unwrap();
                    let pk = self.at(d).unwrap().0;
                    assert(self.rep().live(vi));
                    assert(pm.slot(vi) == self.rep().kind(vi));
                    assert(enemy.has(vi));
                    if pk == Piece::Queen {
                        assert(victims_queens.has(vi));
                        crate::board::position::legality::lemma_lists_extend(after_queens, fin, m.from_idx(), d, kd);
                    } else if pk == Piece::Rook {
                        assert(victims_rooks.has(vi));
                        crate::board::position::legality::lemma_lists_extend(after_rooks, fin, m.from_idx(), d, kd);
                    } else if pk == Piece::Bishop {
                        assert(victims_bishops.has(vi));
                        crate::board::position::legality::lemma_lists_extend(after_bishops, fin, m.from_idx(), d, kd);
                    } else if pk == Piece::Knight {
                        assert(victims_knights.has(vi));
                        crate::board::position::legality::lemma_lists_extend(after_knights, fin, m.from_idx(), d, kd);
                    } else {
                        assert(victims_pawns.has(vi));
                        crate::board::position::legality::lemma_lists_extend(after_pawns, fin, m.from_idx(), d, kd);
                    }
                }
            }
        }
    }
    /// Add the moves of the pawn on `from` to the empty square `dest` on the check line, if the
    /// pawn belongs to the side to move: a push or double push, promoting on the last rank.
    fn add_pawn_block(
        &self,
        v: &mut ArrayVec<[Move; 256]>,
        from: Square,
        dest: Square,
        kind: MoveType,
        pininfo: &PinInfo,
    )
        requires
            kind == MoveType::Normal || kind == MoveType::DoublePush,
            self.at(dest.index()) is None,
            self.at(from.index()) matches Some(pc) && pc.0 == Piece::Pawn,
            kind == MoveType::Normal ==> step(from.index(), forward(self.turn())) == Some(
                dest.index(),
            ),
            kind == MoveType::DoublePush ==> {
                &&& step(from.index(), forward(self.turn())) is Some
                &&& step(step(from.index(), forward(self.turn())).unwrap(), forward(self.turn()))
                    == Some(dest.index())
                &&& self.at(step(from.index(), forward(self.turn())).unwrap()) is None
                &&& dest.rank_idx() == if self.turn() == Colour::White {
                    3int
                } else {
                    4int
                }
            },
        ensures
            self.extends(moves_of(*old(v)), moves_of(*final(v))),
            self.pins_known(*pininfo) && self.blocks_checks(dest.index()) ==> self.adds_safe(
                moves_of(*old(v)),
                moves_of(*final(v)),
            ),
            self.pins_known(*pininfo) && moves_of(*final(v)).len() < 256 ==> forall|m: Move|
                #[trigger] self.sound_move(m) && !m.move_kind().captures() && m.from_idx() == from.index()
                    && m.dest_idx() == dest.index() && (m.move_kind() == MoveType::DoublePush <==> kind
                    == MoveType::DoublePush) ==> lists(moves_of(*final(v)), m.from_idx(), m.dest_idx(), m.move_kind()),
            no_repeats(moves_of(*old(v)), moves_of(*final(v))),
            moves_of(*final(v)).len() <= moves_of(*old(v)).len() + 4,
            forall|i: int|
                moves_of(*old(v)).len() <= i < moves_of(*final(v)).len() ==> (#[trigger] moves_of(*final(v))[i]).from_idx()
                    == from.index() && moves_of(*final(v))[i].dest_idx() == dest.index()
                    && !moves_of(*final(v))[i].move_kind().captures(),
    {
        proof {
            use_type_invariant(self);
            self.lemma_extends_refl(moves_of(*v));
            if self.pins_known(*pininfo) {
                self.lemma_king_square();
            }
        }
        let ghost start = moves_of(*v);
        let colour = match self.data.colour_from_square(from) {
            Some(c) => c,
            None => {
                return;
            },
        };
        if colour != self.side {
            return;
        }
        if !dest.rank().is_relative_eighth(self.side) {
            self.try_push_move(v, from, dest, kind, pininfo);
            return;
        }
        let ghost m0 = moves_of(*v);
        self.try_push_move(v, from, dest, MoveType::PromotionQueen, pininfo);
        let ghost m1 = moves_of(*v);
        self.try_push_move(v, from, dest, MoveType::PromotionKnight, pininfo);
        let ghost m2 = moves_of(*v);
        self.try_push_move(v, from, dest, MoveType::PromotionRook, pininfo);
        let ghost m3 = moves_of(*v);
        self.try_push_move(v, from, dest, MoveType::PromotionBishop, pininfo);
        proof {
            lemma_four_kinds(
                m0,
                m1,
                m2,
                m3,
                moves_of(*v),
                from.index(),
                dest.index(),
                MoveType::PromotionQueen,
                MoveType::PromotionKnight,
                MoveType::PromotionRook,
                MoveType::PromotionBishop,
            );
            if self.pins_known(*pininfo) && self.blocks_checks(dest.index()) {
                self.lemma_adds_safe_trans(m0, m1, m2);
                self.lemma_extends_trans(m0, m1, m2);
                self.lemma_adds_safe_trans(m0, m2, m3);
                self.lemma_extends_trans(m0, m2, m3);
                self.lemma_adds_safe_trans(m0, m3, moves_of(*v));
            }
            self.lemma_extends_trans(m1, m2, m3);
            self.lemma_extends_trans(m1, m3, moves_of(*v));
            self.lemma_extends_trans(m2, m3, moves_of(*v));
            if self.pins_known(*pininfo) && moves_of(*v).len() < 256 {
                assert forall|m: Move|
                    #[trigger] self.sound_move(m) && !m.move_kind().captures() && m.from_idx() == from.index()
                        && m.dest_idx() == dest.index() && (m.move_kind() == MoveType::DoublePush <==> kind
                        == MoveType::DoublePush) implies lists(moves_of(*v), m.from_idx(), m.dest_idx(), m.move_kind()) by {
                    let kd = m.move_kind();
                    let w = moves_of(*v);
                    if kd == MoveType::PromotionQueen {
                        crate::board::position::legality::lemma_lists_extend(m1, w, m.from_idx(), m.dest_idx(), kd);
                    } else if kd == MoveType::PromotionKnight {
                        crate::board::position::legality::lemma_lists_extend(m2, w, m.from_idx(), m.dest_idx(), kd);
                    } else if kd == MoveType::PromotionRook {
                        crate::board::position::legality::lemma_lists_extend(m3, w, m.from_idx(), m.dest_idx(), kd);
                    }
                }
            }
        }
    }

    /// Add the pawn moves that block a check on the empty square `dest`.
    fn add_pawn_blocks(&self, v: &mut ArrayVec<[Move; 256]>, dest: Square, pininfo: &PinInfo)
        requires
            self.at(dest.index()) is None,
        ensures
            self.extends(moves_of(*old(v)), moves_of(*final(v))),
            self.pins_known(*pininfo) && self.blocks_checks(dest.index()) ==> self.adds_safe(
                moves_of(*old(v)),
                moves_of(*final(v)),
            ),
            self.pins_known(*pininfo) && moves_of(*final(v)).len() < 256 ==> forall|m: Move|
                #[trigger] self.sound_move(m) && !m.move_kind().captures() && self.at(m.from_idx()).unwrap().0
                    == Piece::Pawn && m.dest_idx() == dest.index() ==> lists(
                    moves_of(*final(v)),
                    m.from_idx(),
                    m.dest_idx(),
                    m.move_kind(),
                ),
            no_repeats(moves_of(*old(v)), moves_of(*final(v))),
            moves_of(*final(v)).len() <= moves_of(*old(v)).len() + 4,
            forall|i: int|
                moves_of(*old(v)).len() <= i < moves_of(*final(v)).len() ==> (#[trigger] moves_of(*final(v))[i]).dest_idx()
                    == dest.index() && !moves_of(*final(v))[i].move_kind().captures() && (self.at(
                    moves_of(*final(v))[i].from_idx(),
                ) matches Some(pc) && pc.0 == Piece::Pawn),
    {
        proof {
            use_type_invariant(self);
            self.lemma_extends_refl(moves_of(*v));
        }
        let ghost d = dest.index();
        let ghost side = self.turn();
        let from = match dest.relative_south(self.side) {
            Some(f) => f,
            None => {
                proof {
                    assert forall|m: Move|
                        #[trigger] self.sound_move(m) && !m.move_kind().captures() && self.at(m.from_idx()).unwrap().0
                            == Piece::Pawn && m.dest_idx() == d implies false by {
                        self.lemma_pawn_push_back(m);
                    }
                }
                return;
            },
        };
        proof {
            lemma_step_back(dest.index(), self.side);
            assert forall|m: Move|
                #[trigger] self.sound_move(m) && !m.move_kind().captures() && self.at(m.from_idx()).unwrap().0
                    == Piece::Pawn && m.dest_idx() == d implies (m.move_kind() == MoveType::DoublePush ==> step(
                from.index(),
                backward(side),
            ) == Some(m.from_idx()) && self.at(from.index()) is None && fourth_rank(side, d)) && (
            m.move_kind() != MoveType::DoublePush ==> m.from_idx() == from.index()) by {
                self.lemma_pawn_push_back(m);
            }
        }
        match self.data.piece_from_square(from) {
            Some(Piece::Pawn) => {
                self.add_pawn_block(v, from, dest, MoveType::Normal, pininfo);
            },
            Some(_) => {},
            None => {
                if dest.rank().is_relative_fourth(self.side) {
                    let from2 = match from.relative_south(self.side) {
                        Some(f) => f,
                        None => {
                            return;
                        },
                    };
                    proof {
                        lemma_step_back(from.index(), self.side);
                    }
                    if let Some(Piece::Pawn) = self.data.piece_from_square(from2) {
                        self.add_pawn_block(v, from2, dest, MoveType::DoublePush, pininfo);
                    }
                }
            },
        }
    }

    /// A pawn push goes from the square behind its destination, or for a double push from the
    /// square behind that one, over an empty square, onto the fourth rank.
    proof fn lemma_pawn_push_back(self, m: Move)
        requires
            self.rep().wf(),
            self.sound_move(m),
            !m.move_kind().captures(),
            self.at(m.from_idx()).unwrap().0 == Piece::Pawn,
        ensures
            step(m.dest_idx(), backward(self.turn())) is Some,
            m.move_kind() != MoveType::DoublePush ==> step(m.dest_idx(), backward(self.turn())) == Some(
                m.from_idx(),
            ),
            m.move_kind() == MoveType::DoublePush ==> {
                let mid = step(m.dest_idx(), backward(self.turn())).unwrap();
                &&& step(mid, backward(self.turn())) == Some(m.from_idx())
                &&& self.at(mid) is None
                &&& fourth_rank(self.turn(), m.dest_idx())
            },
    {
        let side = self.turn();
        let f = m.from_idx();
        let d = m.dest_idx();
        Move::lemma_fields_range(m);
        if m.move_kind() == MoveType::DoublePush {
            let mid = step(f, forward(side)).unwrap();
            lemma_step(f, forward(side), mid);
            lemma_step(mid, forward(side), d);
            lemma_step(d, backward(side), mid);
            lemma_step(mid, backward(side), f);
        } else {
            lemma_step(f, forward(side), d);
            lemma_step(d, backward(side), f);
        }
    }

    /// The square beyond the king, seen from a checking slider on `attacker_square`, which the
    /// king cannot step to: the slider's attack passes through the king.
    fn xray_square(king_square: Square, attacker_square: Square, attacker_piece: Piece) -> (r: Option<
        Square,
    >)
        ensures
            attacker_piece.is_slider() ==> xray_listed(attacker_square.index(), king_square.index(), r, None),
            r matches Some(t) ==> attacker_piece.is_slider() && (direction_between(
                attacker_square.index(),
                king_square.index(),
            ) matches Some(dd) && step(king_square.index(), dd) == Some(t.index())),
    {
        match attacker_piece {
            Piece::Bishop | Piece::Rook | Piece::Queen => match attacker_square.direction(
                king_square,
            ) {
                Some(dir) => king_square.travel(dir),
                None => None,
            },
            _ => None,
        }
    }

    /// True if `x`, when it is a square, is the square beyond the king at `k` seen from some
    /// enemy slider that attacks it.
    pub open spec fn xray_valid(self, k: int, x: Option<Square>) -> bool {
        x matches Some(t) ==> exists|s: int|
            0 <= s < 64 && #[trigger] self.rep().attacker_at(s, k, self.turn().other())
                && self.at(s).unwrap().0.is_slider() && (direction_between(s, k) matches Some(dd) && step(k, dd)
                == Some(t.index()))
    }

    /// A safe king step goes next to the king, to an empty square as a quiet move or onto an
    /// enemy piece as a capture.
    proof fn lemma_king_step_shape(self, m: Move)
        requires
            self.rep().wf(),
            self.rep().has_king(self.turn()),
            self.safe_king_step(m),
        ensures
            king_attacks(self.king_at(self.turn()), m.dest_idx()),
            0 <= m.dest_idx() < 64,
            self.at(m.dest_idx()) is None ==> m.move_kind() == MoveType::Normal,
            self.at(m.dest_idx()) is Some ==> m.move_kind() == MoveType::Capture && self.at(
                m.dest_idx(),
            ).unwrap().1 == self.turn().other(),
    {
        self.lemma_king_square();
        Move::lemma_fields_range(m);
    }

    /// True if `square` is the square `x`, when there is one.
    fn is_square(x: Option<Square>, square: Square) -> (r: bool)
        ensures
            r == (x matches Some(s) && s.index() == square.index()),
    {
        match x {
            Some(s) => s.into_inner() == square.into_inner(),
            None => false,
        }
    }

    /// Add the king moves out of check: to a square that is not attacked, does not hold a
    /// friendly piece or the square `skip`, and is not one of the x-ray squares.
    fn king_evasions(
        &self,
        v: &mut ArrayVec<[Move; 256]>,
        king_square: Square,
        skip: Option<Square>,
        xray1: Option<Square>,
        xray2: Option<Square>,
    )
        requires
            self.at(king_square.index()) == Some((Piece::King, self.turn())),
            king_square.index() == self.king_at(self.turn()),
            skip matches Some(t) ==> self.at(t.index()) is Some,
        ensures
            no_repeats(moves_of(*old(v)), moves_of(*final(v))),
            moves_of(*final(v)).len() <= moves_of(*old(v)).len() + 8,
            forall|i: int|
                moves_of(*old(v)).len() <= i < moves_of(*final(v)).len() ==> (#[trigger] moves_of(*final(v))[i]).from_idx()
                    == king_square.index() && !(skip matches Some(t) && t.index() == moves_of(*final(v))[i].dest_idx())
                    && moves_of(*final(v))[i].move_kind() != MoveType::EnPassant,
            self.extends(moves_of(*old(v)), moves_of(*final(v))),
            self.rep().has_king(self.turn()) && (forall|s: int|
                0 <= s < 64 && #[trigger] self.rep().attacker_at(s, king_square.index(), self.turn().other())
                    && self.at(s).unwrap().0.is_slider() ==> xray_listed(s, king_square.index(), xray1, xray2))
                ==> self.adds_safe(moves_of(*old(v)), moves_of(*final(v))),
            self.rep().has_king(self.turn()) && self.xray_valid(king_square.index(), xray1)
                && self.xray_valid(king_square.index(), xray2) && (skip matches Some(t)
                ==> self.rep().attacker_at(t.index(), king_square.index(), self.turn().other()))
                ==> self.lists_king_steps(moves_of(*final(v))),
            self.rep().has_king(self.turn()) && self.xray_valid(king_square.index(), xray1)
                && self.xray_valid(king_square.index(), xray2) && skip is None ==> self.lists_all_king_steps(
                moves_of(*final(v)),
            ),
    {
        proof {
            use_type_invariant(self);
            self.lemma_extends_refl(moves_of(*v));
            lemma_king_jumps(king_square.index(), 0);
            lemma_king_jumps_distinct(king_square.index(), 0);
            lemma_king_jumps_len(king_square.index(), 0);
        }
        let ghost full = self.rep().has_king(self.turn()) && self.xray_valid(king_square.index(), xray1)
            && self.xray_valid(king_square.index(), xray2);
        let ghost k = king_square.index();
        let ghost enemy = self.turn().other();
        proof {
            if full {
                self.lemma_king_square();
                assert forall|m: Move| #[trigger] self.safe_king_step(m) implies king_jumps(k, 0).contains(
                    m.dest_idx(),
                ) by {
                    self.lemma_king_step_shape(m);
                    lemma_king_dirs(k, m.dest_idx());
                    let i = choose|i: int| 0 <= i < 8 && step(k, king_dir(i)) == Some(m.dest_idx());
                    lemma_king_jumps_cover(k, 0, i, m.dest_idx());
                }
            }
        }
        let ghost start = moves_of(*v);
        let ghost cond = self.rep().has_king(self.turn()) && (forall|s: int|
            0 <= s < 64 && #[trigger] self.rep().attacker_at(s, king_square.index(), self.turn().other())
                && self.at(s).unwrap().0.is_slider() ==> xray_listed(s, king_square.index(), xray1, xray2));
        let mut it = king_square.king_attacks();
        loop
            invariant
                self.data.wf(),
                self.at(king_square.index()) == Some((Piece::King, self.turn())),
                king_square.index() == self.king_at(self.turn()),
                start == moves_of(*old(v)),
                self.extends(start, moves_of(*v)),
                skip matches Some(t) ==> self.at(t.index()) is Some,
                no_repeats(start, moves_of(*v)),
                moves_of(*v).len() + it.remaining().len() <= start.len() + 8,
                forall|i: int|
                    start.len() <= i < moves_of(*v).len() ==> (#[trigger] moves_of(*v)[i]).from_idx() == king_square.index()
                        && !(skip matches Some(t) && t.index() == moves_of(*v)[i].dest_idx())
                        && !it.remaining().contains(moves_of(*v)[i].dest_idx())
                        && moves_of(*v)[i].move_kind() != MoveType::EnPassant,
                forall|j1: int, j2: int|
                    0 <= j1 < j2 < it.remaining().len() ==> it.remaining()[j1] != it.remaining()[j2],
                cond == (self.rep().has_king(self.turn()) && (forall|s: int|
                    0 <= s < 64 && #[trigger] self.rep().attacker_at(s, king_square.index(), self.turn().other())
                        && self.at(s).unwrap().0.is_slider() ==> xray_listed(s, king_square.index(), xray1, xray2))),
                cond ==> self.adds_safe(start, moves_of(*v)),
                k == king_square.index(),
                enemy == self.turn().other(),
                full == (self.rep().has_king(self.turn()) && self.xray_valid(king_square.index(), xray1)
                    && self.xray_valid(king_square.index(), xray2)),
                full ==> moves_of(*v).len() < 256 ==> forall|m: Move|
                    #[trigger] self.safe_king_step(m) && !(skip matches Some(t) && t.index() == m.dest_idx())
                        && !it.remaining().contains(m.dest_idx()) ==> lists(
                        moves_of(*v),
                        m.from_idx(),
                        m.dest_idx(),
                        m.move_kind(),
                    ),
                forall|j: int|
                    0 <= j < it.remaining().len() ==> 0 <= #[trigger] it.remaining()[j] < 64
                        && king_attacks(king_square.index(), it.remaining()[j]),
            ensures
                it.remaining().len() == 0,
            decreases it.remaining().len(),
        {
            let ghost before_it = it.remaining();
            let square = match it.next() {
                None => {
                    proof {
                        assert(it.remaining().len() == 0);
                        assert forall|x: int| !it.remaining().contains(x) by {}
                    }
                    break;
                },
                Some(sq) => sq,
            };
            proof {
                assert(king_attacks(king_square.index(), square.index()));
                assert forall|x: int| !it.remaining().contains(x) && x != square.index() implies !before_it.contains(x) by {
                    if before_it.contains(x) {
                        let j = choose|j: int| 0 <= j < before_it.len() && before_it[j] == x;
                        assert(j != 0);
                        assert(it.remaining()[j - 1] == x);
                    }
                }
                if full {
                    self.lemma_king_square();
                }
            }
            let kind = if self.data.has_piece(square) {
                if Self::is_square(skip, square) {
                    continue;
                }
                match self.data.colour_from_square(square) {
                    Some(c) => {
                        if c == self.side {
                            proof {
                                if full {
                                    assert forall|m: Move| #[trigger] self.safe_king_step(m) implies m.dest_idx()
                                        != square.index() by {
                                        if m.dest_idx() == square.index() {
                                            self.lemma_king_step_shape(m);
                                        }
                                    }
                                }
                            }
                            continue;
                        }
                    },
                    None => {},
                }
                MoveType::Capture
            } else {
                MoveType::Normal
            };
            let guards = self.data.attacks_to(square, self.side.not());
            proof {
                Bitlist::lemma_empty(guards);
                self.rep().lemma_attacked_by(square.index(), enemy);
            }
            if !guards.empty() {
                proof {
                    if full {
                        let i = choose|i: int| guards.has(i);
                        assert(guards.has(i));
                        assert(0 <= i < 32 && colour_of_index(i) == enemy);
                        assert(self.rep().attacked(square.index(), i));
                        assert(self.rep().attacked_by(square.index(), enemy));
                        assert forall|m: Move| #[trigger] self.safe_king_step(m) implies m.dest_idx()
                            != square.index() by {
                            if m.dest_idx() == square.index() {
                                self.lemma_king_step_attacked(m);
                            }
                        }
                    }
                }
                continue;
            }
            if Self::is_square(xray1, square) || Self::is_square(xray2, square) {
                proof {
                    if full {
                        assert forall|m: Move| #[trigger] self.safe_king_step(m) implies m.dest_idx()
                            != square.index() by {
                            if m.dest_idx() == square.index() {
                                let x = if (xray1 matches Some(t) && t.index() == square.index()) {
                                    xray1
                                } else {
                                    xray2
                                };
                                assert(self.xray_valid(k, x));
                                let s = choose|s: int|
                                    0 <= s < 64 && #[trigger] self.rep().attacker_at(s, k, enemy)
                                        && self.at(s).unwrap().0.is_slider() && (direction_between(s, k) matches Some(
                                        dd,
                                    ) && step(k, dd) == Some(square.index()));
                                self.lemma_king_step_xray(m, s);
                            }
                        }
                    }
                }
                continue;
            }
            let m = Move::new(king_square, square, kind);
            proof {
                if cond {
                    let k = king_square.index();
                    let d = square.index();
                    let enemy = self.turn().other();
                    Bitlist::lemma_empty(guards);
                    self.rep().lemma_attacked_by(d, enemy);
                    assert forall|s: int|
                        0 <= s < 64 && #[trigger] self.rep().attacker_at(s, k, enemy)
                            && self.at(s).unwrap().0.is_slider() implies !strictly_between(s, k, d) by {
                        if strictly_between(s, k, d) {
                            crate::board::position::legality::lemma_beyond_step(s, k, d);
                        }
                    }
                    assert(self.answers_checks(k, d));
                    assert(self.generated(m));
                    self.lemma_king_step_safe(m);
                }
            }
            let ghost before = moves_of(*v);
            try_push(v, m);
            proof {
                assert(moves_of(*v).subrange(0, before.len() as int) == before);
                assert(before_it[0] == square.index());
                assert forall|i: int| start.len() <= i < before.len() implies (#[trigger] before[i]).dest_idx()
                    != square.index() by {
                    assert(before_it.contains(square.index()));
                }
                assert(!it.remaining().contains(square.index())) by {
                    if it.remaining().contains(square.index()) {
                        let j = choose|j: int| 0 <= j < it.remaining().len() && it.remaining()[j] == square.index();
                        assert(before_it[j + 1] == square.index());
                    }
                }
                assert(!(skip matches Some(t) && t.index() == square.index()));
                lemma_no_repeats_one(before, moves_of(*v));
                lemma_no_repeats_join(start, before, moves_of(*v), |mm: Move| mm.dest_idx() != square.index());
                assert forall|i: int| start.len() <= i < moves_of(*v).len() implies (#[trigger] moves_of(*v)[i]).from_idx()
                    == king_square.index() && !(skip matches Some(t) && t.index() == moves_of(*v)[i].dest_idx())
                    && !it.remaining().contains(moves_of(*v)[i].dest_idx())
                    && moves_of(*v)[i].move_kind() != MoveType::EnPassant by {
                    if i < before.len() {
                        assert(moves_of(*v)[i] == moves_of(*v).subrange(0, before.len() as int)[i]);
                        if it.remaining().contains(before[i].dest_idx()) {
                            let j = choose|j: int| 0 <= j < it.remaining().len() && it.remaining()[j] == before[i].dest_idx();
                            assert(before_it[j + 1] == before[i].dest_idx());
                            assert(before_it.contains(before[i].dest_idx()));
                        }
                    }
                }
                assert(self.generated(m));
                assert(moves_of(*v).subrange(0, before.len() as int) == before);
                self.lemma_extends_trans(start, before, moves_of(*v));
                if full && moves_of(*v).len() < 256 {
                    assert(moves_of(*v) == before.push(m));
                    assert forall|mm: Move|
                        #[trigger] self.safe_king_step(mm) && !(skip matches Some(t) && t.index() == mm.dest_idx())
                            && !it.remaining().contains(mm.dest_idx()) implies lists(
                            moves_of(*v),
                            mm.from_idx(),
                            mm.dest_idx(),
                            mm.move_kind(),
                        ) by {
                        if mm.dest_idx() == square.index() {
                            self.lemma_king_step_shape(mm);
                            assert(moves_of(*v)[before.len() as int] == m);
                        } else {
                            let j = choose|j: int|
                                0 <= j < before.len() && (#[trigger] before[j]).from_idx() == mm.from_idx()
                                    && before[j].dest_idx() == mm.dest_idx() && before[j].move_kind()
                                    == mm.move_kind();
                            assert(moves_of(*v)[j] == before[j]);
                        }
                    }
                }
                if cond {
                    assert forall|i: int| before.len() <= i < moves_of(*v).len() implies
                        #[trigger] self.safe_or_special(moves_of(*v)[i]) by {
                        assert(moves_of(*v)[i] == m);
                    }
                    self.lemma_adds_safe_trans(start, before, moves_of(*v));
                }
            }
        }
        proof {
            if full && moves_of(*v).len() < 256 {
                assert forall|m: Move|
                    #[trigger] self.safe_king_step(m) && !(skip matches Some(t) && t.index() == m.dest_idx())
                        implies lists(moves_of(*v), m.from_idx(), m.dest_idx(), m.move_kind()) by {
                    assert(!it.remaining().contains(m.dest_idx()));
                }
                if skip matches Some(t) && self.rep().attacker_at(t.index(), k, enemy) {
                    assert forall|m: Move|
                        #[trigger] self.safe_king_step(m) && !self.rep().attacker_at(
                            m.dest_idx(),
                            self.king_at(self.turn()),
                            self.turn().other(),
                        ) implies lists(moves_of(*v), m.from_idx(), m.dest_idx(), m.move_kind()) by {
                        assert(!(skip matches Some(t) && t.index() == m.dest_idx()));
                    }
                }
            }
        }
    }

    /// Add a quiet move to the empty square `dest` by each piece of `movers`, none of them a
    /// pawn, which attack it.
    fn push_quiet(&self, v: &mut ArrayVec<[Move; 256]>, movers: Bitlist, dest: Square, pininfo: &PinInfo)
        requires
            self.at(dest.index()) is None,
            forall|i: int|
                #[trigger] movers.has(i) ==> self.rep().attacked(dest.index(), i) && 0 <= i < 32
                    && colour_of_index(i) == self.turn() && self.rep().kind(i) != Some(Piece::Pawn),
        ensures
            self.extends(moves_of(*old(v)), moves_of(*final(v))),
            self.calm(*pininfo) && (self.rep().attacked_by(dest.index(), self.turn().other())
                ==> forall|i: int| #[trigger] movers.has(i) ==> self.rep().kind(i) != Some(Piece::King))
                ==> self.adds_safe(moves_of(*old(v)), moves_of(*final(v))),
            self.pins_known(*pininfo) && (forall|i: int|
                #[trigger] movers.has(i) ==> self.answers_checks(self.rep().sq_of(i), dest.index()))
                ==> self.adds_safe(moves_of(*old(v)), moves_of(*final(v))),
            self.pins_known(*pininfo) && moves_of(*final(v)).len() < 256 ==> forall|m: Move|
                #[trigger] self.sound_move(m) && m.dest_idx() == dest.index() && m.move_kind()
                    == MoveType::Normal && (self.rep().slot_at(m.from_idx()) matches Some(c) && movers.has(c))
                    ==> lists(moves_of(*final(v)), m.from_idx(), m.dest_idx(), m.move_kind()),
            no_castling(moves_of(*old(v)), moves_of(*final(v))),
            no_repeats(moves_of(*old(v)), moves_of(*final(v))),
            moves_of(*final(v)).len() <= moves_of(*old(v)).len() + popcount(movers@),
            all_from(*self, moves_of(*old(v)), moves_of(*final(v)), movers),
            forall|i: int|
                moves_of(*old(v)).len() <= i < moves_of(*final(v)).len() ==> (#[trigger] moves_of(*final(v))[i]).dest_idx()
                    == dest.index() && moves_of(*final(v))[i].move_kind() == MoveType::Normal,
    {
        proof {
            use_type_invariant(self);
            self.lemma_extends_refl(moves_of(*v));
        }
        let mut it = movers.into_iter();
        let ghost start = moves_of(*v);
        let ghost cond = self.calm(*pininfo) && (self.rep().attacked_by(dest.index(), self.turn().other())
            ==> forall|i: int| #[trigger] movers.has(i) ==> self.rep().kind(i) != Some(Piece::King));
        let ghost cond2 = self.pins_known(*pininfo) && (forall|i: int|
            #[trigger] movers.has(i) ==> self.answers_checks(self.rep().sq_of(i), dest.index()));
        loop
            invariant
                self.data.wf(),
                self.at(dest.index()) is None,
                start == moves_of(*old(v)),
                self.extends(start, moves_of(*v)),
                no_castling(start, moves_of(*v)),
                no_repeats(start, moves_of(*v)),
                moves_of(*v).len() + popcount(it.rest()@) <= start.len() + popcount(movers@),
                all_from_done(*self, start, moves_of(*v), movers, it.rest()),
                forall|i: int|
                    start.len() <= i < moves_of(*v).len() ==> (#[trigger] moves_of(*v)[i]).dest_idx() == dest.index()
                        && moves_of(*v)[i].move_kind() == MoveType::Normal,
                cond == (self.calm(*pininfo) && (self.rep().attacked_by(dest.index(), self.turn().other())
                    ==> forall|i: int| #[trigger] movers.has(i) ==> self.rep().kind(i) != Some(Piece::King))),
                cond ==> self.adds_safe(start, moves_of(*v)),
                cond2 == (self.pins_known(*pininfo) && (forall|i: int|
                    #[trigger] movers.has(i) ==> self.answers_checks(self.rep().sq_of(i), dest.index()))),
                cond2 ==> self.adds_safe(start, moves_of(*v)),
                self.pins_known(*pininfo) && moves_of(*v).len() < 256 ==> forall|m: Move|
                    #[trigger] self.sound_move(m) && m.dest_idx() == dest.index() && m.move_kind()
                        == MoveType::Normal && (self.rep().slot_at(m.from_idx()) matches Some(c) && movers.has(c)
                        && !it.rest().has(c)) ==> lists(moves_of(*v), m.from_idx(), m.dest_idx(), m.move_kind()),
                forall|i: int| #[trigger] it.rest().has(i) ==> movers.has(i),
                forall|i: int|
                    #[trigger] movers.has(i) ==> self.data.attacked(dest.index(), i) && 0 <= i < 32
                        && colour_of_index(i) == self.side && self.data.kind(i) != Some(Piece::Pawn),
            ensures
                forall|i: int| !it.rest().has(i),
            decreases popcount(it.rest()@),
        {
            let ghost rest0 = it.rest();
            match it.next() {
                None => {
                    proof {
                        Bitlist::lemma_empty(it.rest());
                    }
                    break;
                },
                Some(mover) => {
                    let from = self.data.square_of_piece(mover);
                    proof {
                        assert(movers.has(mover.index()));
                        lemma_attacker(self.data, dest.index(), mover.index());
                        if cond {
                            self.lemma_king_square();
                        }
                    }
                    let ghost mid = moves_of(*v);
                    self.try_push_move(v, from, dest, MoveType::Normal, pininfo);
                    proof {
                        lemma_slot_square(self.data, mover.index());
                        lemma_no_repeats_one(mid, moves_of(*v));
                        lemma_no_repeats_join(
                            start,
                            mid,
                            moves_of(*v),
                            |m: Move| (self.rep().slot_at(m.from_idx()) matches Some(c) && !rest0.has(c)),
                        );
                        assert forall|i: int| start.len() <= i < moves_of(*v).len() implies (self.rep().slot_at(
                            (#[trigger] moves_of(*v)[i]).from_idx(),
                        ) matches Some(c) && movers.has(c) && !it.rest().has(c)) && moves_of(*v)[i].dest_idx()
                            == dest.index() && moves_of(*v)[i].move_kind() == MoveType::Normal by {
                            if i < mid.len() {
                                assert(moves_of(*v)[i] == moves_of(*v).subrange(0, mid.len() as int)[i]);
                            }
                        }
                        lemma_no_castling_trans(start, mid, moves_of(*v));
                        if cond || cond2 {
                            self.lemma_adds_safe_trans(start, mid, moves_of(*v));
                        }
                        if self.pins_known(*pininfo) && moves_of(*v).len() < 256 {
                            assert forall|m: Move|
                                #[trigger] self.sound_move(m) && m.dest_idx() == dest.index() && m.move_kind()
                                    == MoveType::Normal && (self.rep().slot_at(m.from_idx()) matches Some(c)
                                    && movers.has(c) && !it.rest().has(c)) implies lists(
                                moves_of(*v),
                                m.from_idx(),
                                m.dest_idx(),
                                m.move_kind(),
                            ) by {
                                let c = self.rep().slot_at(m.from_idx()).unwrap();
                                if c == mover.index() {
                                    assert(self.rep().sq_of(c) == m.from_idx());
                                } else {
                                    assert(!rest0.has(c));
                                    crate::board::position::legality::lemma_lists_extend(
                                        mid,
                                        moves_of(*v),
                                        m.from_idx(),
                                        m.dest_idx(),
                                        m.move_kind(),
                                    );
                                }
                            }
                        }
                    }
                },
            }
        }
    }

    /// Add the moves that put a piece between the king and the slider on `attacker_square`
    /// that checks it.
    #[verifier::spinoff_prover]
    #[verifier::rlimit(80)]
    fn add_blocks(
        &self,
        v: &mut ArrayVec<[Move; 256]>,
        king_square: Square,
        attacker_square: Square,
        pininfo: &PinInfo,
    )
        requires
            direction_between(attacker_square.index(), king_square.index()) is Some,
            clear_ray(
                attacker_square.index(),
                direction_between(attacker_square.index(), king_square.index()).unwrap(),
                dist(attacker_square.index(), king_square.index()),
                self.rep().occupied(),
            ),
            king_square.index() == self.king_at(self.turn()),
        ensures
            self.extends(moves_of(*old(v)), moves_of(*final(v))),
            self.pins_known(*pininfo) && (forall|s: int|
                0 <= s < 64 && #[trigger] self.rep().attacker_at(s, king_square.index(), self.turn().other())
                    ==> s == attacker_square.index()) ==> self.adds_safe(moves_of(*old(v)), moves_of(*final(v))),
            self.pins_known(*pininfo) && moves_of(*final(v)).len() < 256 ==> forall|m: Move|
                #[trigger] self.sound_move(m) && !m.move_kind().captures() && m.from_idx() != king_square.index()
                    && strictly_between(attacker_square.index(), m.dest_idx(), king_square.index()) ==> lists(
                    moves_of(*final(v)),
                    m.from_idx(),
                    m.dest_idx(),
                    m.move_kind(),
                ),
            no_repeats(moves_of(*old(v)), moves_of(*final(v))),
            moves_of(*final(v)).len() <= moves_of(*old(v)).len() + 20 * dist(
                attacker_square.index(),
                king_square.index(),
            ),
            forall|i: int|
                moves_of(*old(v)).len() <= i < moves_of(*final(v)).len() ==> (#[trigger] moves_of(*final(v))[i]).dest_idx()
                    != attacker_square.index() && !moves_of(*final(v))[i].move_kind().captures() && (self.at(
                    moves_of(*final(v))[i].from_idx(),
                ) matches Some(pc) && pc.0 != Piece::King),
    {
        proof {
            use_type_invariant(self);
            self.lemma_extends_refl(moves_of(*v));
        }
        let ghost start = moves_of(*v);
        let ghost a = attacker_square.index();
        let ghost k = king_square.index();
        let ghost cond = self.pins_known(*pininfo) && (forall|s: int|
            0 <= s < 64 && #[trigger] self.rep().attacker_at(s, king_square.index(), self.turn().other())
                ==> s == attacker_square.index());
        let direction = match king_square.direction(attacker_square) {
            Some(d) => d,
            None => {
                return;
            },
        };
        let ghost n_att = dist(k, a);
        proof {
            lemma_direction_reverse(a, k);
            lemma_direction_ray(k, a);
        }
        let pm = self.data.piecemask();
        let mut ray = Square16x8::from_square(king_square).ray_attacks(direction);
        let ghost mut n: int = 0;
        loop
            invariant_except_break
                0 <= n < n_att,
                ray.position() == ray_sq(k, direction, n),
            invariant
                self.data.wf(),
                *pm == self.data.mask(),
                forall|i: int| 0 <= i < 32 ==> #[trigger] pm.slot(i) == self.data.kind(i),
                0 <= a < 64,
                0 <= k < 64,
                direction_between(a, k) is Some,
                direction_between(k, a) == Some(direction),
                is_queen_dir(direction),
                n_att == dist(k, a),
                n_att == dist(a, k),
                n_att >= 1,
                ray_sq(k, direction, n_att) == a,
                forall|j: int| 0 <= j <= n_att ==> #[trigger] ray_on(k, direction, j),
                clear_ray(a, direction_between(a, k).unwrap(), dist(a, k), self.rep().occupied()),
                ray.direction() == direction,
                attacker_square.index() == a,
                start == moves_of(*old(v)),
                self.extends(start, moves_of(*v)),
                no_repeats(start, moves_of(*v)),
                moves_of(*v).len() <= start.len() + 20 * n,
                forall|i: int|
                    start.len() <= i < moves_of(*v).len() ==> dist((#[trigger] moves_of(*v)[i]).dest_idx(), k) <= n
                        && moves_of(*v)[i].dest_idx() != a && !moves_of(*v)[i].move_kind().captures() && (self.at(
                        moves_of(*v)[i].from_idx(),
                    ) matches Some(pc) && pc.0 != Piece::King),
                king_square.index() == k,
                k == self.king_at(self.turn()),
                cond == (self.pins_known(*pininfo) && (forall|s: int|
                    0 <= s < 64 && #[trigger] self.rep().attacker_at(s, king_square.index(), self.turn().other())
                        ==> s == attacker_square.index())),
                cond ==> self.adds_safe(start, moves_of(*v)),
                self.pins_known(*pininfo) && moves_of(*v).len() < 256 ==> forall|m: Move|
                    #[trigger] self.sound_move(m) && !m.move_kind().captures() && m.from_idx() != k
                        && strictly_between(a, m.dest_idx(), k) && dist(m.dest_idx(), k) <= n ==> lists(
                        moves_of(*v),
                        m.from_idx(),
                        m.dest_idx(),
                        m.move_kind(),
                    ),
            ensures
                moves_of(*v).len() <= start.len() + 20 * n_att,
                self.pins_known(*pininfo) && moves_of(*v).len() < 256 ==> forall|m: Move|
                    #[trigger] self.sound_move(m) && !m.move_kind().captures() && m.from_idx() != k
                        && strictly_between(a, m.dest_idx(), k) ==> lists(
                        moves_of(*v),
                        m.from_idx(),
                        m.dest_idx(),
                        m.move_kind(),
                    ),
            decreases n_att - n,
        {
            proof {
                lemma_ray_step(k, direction, n);
            }
            let dest = match ray.next() {
                None => {
                    proof {
                        assert(ray_on(k, direction, n + 1));
                    }
                    break;
                },
                Some(sq) => sq,
            };
            proof {
                n = n + 1;
            }
            if dest.into_inner() == attacker_square.into_inner() {
                proof {
                    if self.pins_known(*pininfo) && moves_of(*v).len() < 256 {
                        assert forall|m: Move|
                            #[trigger] self.sound_move(m) && !m.move_kind().captures() && m.from_idx() != k
                                && strictly_between(a, m.dest_idx(), k) implies lists(
                            moves_of(*v),
                            m.from_idx(),
                            m.dest_idx(),
                            m.move_kind(),
                        ) by {
                            Move::lemma_fields_range(m);
                            crate::board::attacks::lemma_between_geometry(a, m.dest_idx(), k);
                        }
                    }
                }
                break;
            }
            proof {
                lemma_ray_reverse(a, k, n);
                if n == n_att {
                    assert(dest.index() == a);
                }
                assert(!(self.data.occupied())(ray_sq(a, direction_between(a, k).unwrap(), n_att - n)));
                assert(self.at(dest.index()) is None);
            }
            let attackers = self.data.attacks_to(dest, self.side);
            let movers = attackers.and(pm.pawns().invert()).and(pm.kings().invert());
            proof {
                if cond {
                    let dd = direction_between(a, k).unwrap();
                    lemma_direction_ray(a, k);
                    crate::board::position::legality::lemma_line_between(a, dd, n_att - n, n_att);
                    assert(strictly_between(a, dest.index(), k));
                    assert(self.blocks_checks(dest.index()));
                    self.lemma_king_square();
                    assert forall|i: int| #[trigger] movers.has(i) implies self.answers_checks(
                        self.rep().sq_of(i),
                        dest.index(),
                    ) by {
                        assert(attackers.has(i));
                        assert(0 <= i < 32 && colour_of_index(i) == self.side);
                        lemma_attacker(self.data, dest.index(), i);
                    }
                }
            }
            proof {
                assert forall|i: int| #[trigger] crate::board::bitlist::bit(movers@, i) implies colour_of_index(i)
                    == self.side by {
                    assert(movers.has(i));
                    assert(attackers.has(i));
                }
                crate::board::bitlist::lemma_popcount_one_colour(movers@, self.side);
            }
            let ghost before_dest = moves_of(*v);
            let ghost mid = moves_of(*v);
            self.push_quiet(v, movers, dest, pininfo);
            let ghost after_quiet = moves_of(*v);
            proof {
                if cond {
                    self.lemma_adds_safe_trans(start, mid, moves_of(*v));
                }
                self.lemma_extends_trans(start, mid, moves_of(*v));
            }
            let ghost mid = moves_of(*v);
            self.add_pawn_blocks(v, dest, pininfo);
            proof {
                crate::board::attacks::lemma_ray_geometry(k, direction, n);
                assert(dist(dest.index(), k) == n);
                assert forall|i: int| before_dest.len() <= i < mid.len() implies (#[trigger] mid[i]).dest_idx() == dest.index()
                    && (self.at(mid[i].from_idx()) matches Some(pc) && pc.0 != Piece::Pawn && pc.0 != Piece::King) by {
                    let c = self.rep().slot_at(mid[i].from_idx()).unwrap();
                    assert(movers.has(c));
                    assert(pm.slot(c) == self.rep().kind(c));
                }
                lemma_no_repeats_join(
                    before_dest,
                    mid,
                    moves_of(*v),
                    |m: Move| !(self.at(m.from_idx()) matches Some(pc) && pc.0 == Piece::Pawn),
                );
                self.lemma_extends_trans(before_dest, mid, moves_of(*v));
                assert forall|i: int| start.len() <= i < before_dest.len() implies dist((#[trigger] moves_of(*v)[i]).dest_idx(), k)
                    < n by {
                    assert(moves_of(*v)[i] == moves_of(*v).subrange(0, before_dest.len() as int)[i]);
                }
                assert forall|i: int| before_dest.len() <= i < moves_of(*v).len() implies (#[trigger] moves_of(*v)[i]).dest_idx()
                    == dest.index() by {
                    if i < mid.len() {
                        assert(moves_of(*v)[i] == moves_of(*v).subrange(0, mid.len() as int)[i]);
                    }
                }
                lemma_no_repeats_join(start, before_dest, moves_of(*v), |m: Move| dist(m.dest_idx(), k) < n);
                assert forall|i: int| start.len() <= i < moves_of(*v).len() implies dist((#[trigger] moves_of(*v)[i]).dest_idx(), k)
                    <= n && moves_of(*v)[i].dest_idx() != a && !moves_of(*v)[i].move_kind().captures() && (self.at(
                    moves_of(*v)[i].from_idx(),
                ) matches Some(pc) && pc.0 != Piece::King) by {
                    if i < before_dest.len() {
                        assert(moves_of(*v)[i] == moves_of(*v).subrange(0, before_dest.len() as int)[i]);
                    } else if i < mid.len() {
                        assert(moves_of(*v)[i] == moves_of(*v).subrange(0, mid.len() as int)[i]);
                    }
                }
                if cond {
                    self.lemma_adds_safe_trans(start, mid, moves_of(*v));
                }
                self.lemma_extends_trans(start, mid, moves_of(*v));
                self.lemma_extends_trans(before_dest, after_quiet, moves_of(*v));
                if self.pins_known(*pininfo) && moves_of(*v).len() < 256 {
                    self.lemma_king_square();
                    let side = self.turn();
                    assert forall|m: Move|
                        #[trigger] self.sound_move(m) && !m.move_kind().captures() && m.from_idx() != k
                            && strictly_between(a, m.dest_idx(), k) && dist(m.dest_idx(), k) <= n implies lists(
                        moves_of(*v),
                        m.from_idx(),
                        m.dest_idx(),
                        m.move_kind(),
                    ) by {
                        let d = m.dest_idx();
                        let fr = m.from_idx();
                        Move::lemma_fields_range(m);
                        crate::board::attacks::lemma_between_geometry(a, d, k);
                        if dist(d, k) == n {
                            lemma_ray_reverse(a, k, dist(d, k));
                            assert(d == dest.index());
                            if self.at(fr).unwrap().0 == Piece::Pawn {
                            } else {
                                assert(m.move_kind() == MoveType::Normal);
                                assert(self.rep().attacker_at(fr, d, side));
                                self.rep().lemma_attacker_recorded(fr, d, side);
                                let c = self.rep().slot_at(fr).unwrap();
                                assert(attackers.has(c));
                                assert(pm.slot(c) == self.rep().kind(c));
                                assert(movers.has(c));
                                crate::board::position::legality::lemma_lists_extend(
                                    after_quiet,
                                    moves_of(*v),
                                    fr,
                                    d,
                                    m.move_kind(),
                                );
                            }
                        } else {
                            crate::board::position::legality::lemma_lists_extend(
                                before_dest,
                                moves_of(*v),
                                fr,
                                d,
                                m.move_kind(),
                            );
                        }
                    }
                }
            }
        }
    }

    /// Generate the moves out of a check by a single piece: take the checker, block the check
    /// of a slider, or move the king.
    #[verifier::spinoff_prover]
    #[verifier::rlimit(100)]
    fn generate_single_check(&self, v: &mut ArrayVec<[Move; 256]>)
        requires
            self.rep().has_king(self.turn()),
        ensures
            self.extends(moves_of(*old(v)), moves_of(*final(v))),
            self.single_checker() ==> self.adds_safe(moves_of(*old(v)), moves_of(*final(v))),
            self.checked() ==> self.lists_king_steps(moves_of(*final(v))),
            self.checked() && self.single_checker() ==> self.lists_moves(moves_of(*final(v))),
            no_repeats(moves_of(*old(v)), moves_of(*final(v))),
            moves_of(*final(v)).len() <= moves_of(*old(v)).len() + 228,
            self.ep_conditions() ==> self.ep_moves_safe(moves_of(*old(v)), moves_of(*final(v))),
    {
        proof {
            use_type_invariant(self);
            self.lemma_extends_refl(moves_of(*v));
        }
        let ghost start = moves_of(*v);
        let king_square = self.data.king_square(self.side);
        let attacker_bits = self.data.attacks_to(king_square, self.side.not());
        proof {
            self.lemma_checker_count(king_square, attacker_bits);
        }
        let attacker_index = match attacker_bits.peek() {
            Some(p) => p,
            None => {
                proof {
                    crate::board::bitlist::lemma_bits_below_zero(32);
                }
                return;
            },
        };
        proof {
            assert(attacker_bits.has(attacker_index.index()));
            assert(attacker_bits.has(attacker_index.index()) <==> (self.data.attacked(king_square.index(), attacker_index.index()) && 0 <= attacker_index.index() < 32 && colour_of_index(attacker_index.index()) == self.side.other()));
            lemma_attacker(self.data, king_square.index(), attacker_index.index());
        }
        let attacker_piece = self.data.piece_from_bit(attacker_index);
        let attacker_square = self.data.square_of_piece(attacker_index);
        let pininfo = PinInfo::discover(self);
        let ghost k = king_square.index();
        let ghost a = attacker_square.index();
        let ghost enemy = self.turn().other();
        let ghost cond = self.single_checker();
        proof {
            assert(self.rep().attacker_at(a, k, enemy));
            if cond {
                assert forall|s: int| 0 <= s < 64 && #[trigger] self.rep().attacker_at(s, k, enemy) implies s == a by {
                    assert(self.rep().attacker_at(s, self.king_at(self.turn()), enemy));
                    assert(self.rep().attacker_at(a, self.king_at(self.turn()), enemy));
                }
                self.lemma_king_square();
            }
        }
        // Can we capture the attacker?
        let capturers = self.data.attacks_to(attacker_square, self.side);
        let guards = self.data.attacks_to(attacker_square, self.side.not());
        let defended = !guards.empty();
        proof {
            Bitlist::lemma_empty(guards);
            self.rep().lemma_attacked_by(a, enemy);
            if guards@ != 0 {
                let i = choose|i: int| guards.has(i);
                assert(guards.has(i));
                assert(0 <= i < 32 && colour_of_index(i) == enemy);
                assert(self.rep().attacked(a, i));
            }
        }
        let promoting = attacker_square.rank().is_relative_eighth(self.side);
        let ghost loop_start = moves_of(*v);
        proof {
            assert forall|i: int| #[trigger] crate::board::bitlist::bit(capturers@, i) implies colour_of_index(i)
                == self.side by {
                assert(capturers.has(i));
            }
            crate::board::bitlist::lemma_popcount_one_colour(capturers@, self.side);
        }
        let mut it = capturers.into_iter();
        loop
            invariant
                self.data.wf(),
                self.at(attacker_square.index()) matches Some(pc) && pc.1 == self.turn().other(),
                start == moves_of(*old(v)),
                self.extends(start, moves_of(*v)),
                k == king_square.index(),
                a == attacker_square.index(),
                enemy == self.turn().other(),
                k == self.king_at(self.turn()),
                cond == self.single_checker(),
                self.pins_known(pininfo),
                !defended ==> !self.rep().attacked_by(a, enemy),
                cond ==> forall|s: int| 0 <= s < 64 && #[trigger] self.rep().attacker_at(s, k, enemy) ==> s == a,
                cond ==> self.at(k) == Some((Piece::King, self.turn())),
                cond ==> self.adds_safe(start, moves_of(*v)),
                forall|i: int| #[trigger] it.rest().has(i) ==> capturers.has(i),
                forall|i: int|
                    #[trigger] capturers.has(i) <==> (self.data.attacked(attacker_square.index(), i)
                        && 0 <= i < 32 && colour_of_index(i) == self.side),
                defended ==> self.rep().attacked_by(a, enemy),
                promoting == last_rank(self.turn(), a),
                self.extends(loop_start, moves_of(*v)),
                loop_start == start,
                no_repeats(start, moves_of(*v)),
                moves_of(*v).len() + 4 * popcount(it.rest()@) <= start.len() + 4 * popcount(capturers@),
                popcount(capturers@) <= 16,
                forall|i: int|
                    start.len() <= i < moves_of(*v).len() ==> (#[trigger] moves_of(*v)[i]).dest_idx() == a
                        && moves_of(*v)[i].move_kind().captures() && moves_of(*v)[i].move_kind() != MoveType::EnPassant
                        && (self.rep().slot_at(moves_of(*v)[i].from_idx()) matches Some(c) && !it.rest().has(c)),
                moves_of(*v).len() < 256 ==> forall|m: Move|
                    #[trigger] self.sound_move(m) && m.move_kind().captures() && m.dest_idx() == a
                        && (self.rep().slot_at(m.from_idx()) matches Some(c) && capturers.has(c) && !it.rest().has(c))
                        ==> lists(moves_of(*v), m.from_idx(), m.dest_idx(), m.move_kind()),
            ensures
                forall|i: int| !it.rest().has(i),
            decreases popcount(it.rest()@),
        {
            let ghost rest0 = it.rest();
            let ghost before = moves_of(*v);
            let capturer = match it.next() {
                None => {
                    proof {
                        Bitlist::lemma_empty(it.rest());
                    }
                    break;
                },
                Some(c) => c,
            };
            proof {
                assert(capturers.has(capturer.index()));
                lemma_attacker(self.data, attacker_square.index(), capturer.index());
            }
            let from = self.data.square_of_piece(capturer);
            let piece = self.data.piece_from_bit(capturer);
            proof {
                self.lemma_king_square();
            }
            if piece == Piece::King && defended {
                proof {
                    if moves_of(*v).len() < 256 {
                    assert forall|m: Move|
                        #[trigger] self.sound_move(m) && m.move_kind().captures() && m.dest_idx() == a
                            && (self.rep().slot_at(m.from_idx()) matches Some(c) && capturers.has(c) && !it.rest().has(c))
                            implies lists(moves_of(*v), m.from_idx(), m.dest_idx(), m.move_kind()) by {
                        let c = self.rep().slot_at(m.from_idx()).unwrap();
                        if c == capturer.index() {
                            assert(self.rep().sq_of(c) == m.from_idx());
                            assert(self.at(m.from_idx()).unwrap().0 == Piece::King);
                            assert(m.from_idx() == self.king_at(self.turn()));
                            assert(self.rep().attacked_by(m.dest_idx(), self.turn().other()));
                            self.lemma_king_step_attacked(m);
                        } else {
                            assert(!rest0.has(c));
                            assert(lists(before, m.from_idx(), m.dest_idx(), m.move_kind()));
                        }
                    }
                    }
                }
                continue;
            }
            proof {
                if cond {
                    assert(!strictly_between(a, k, a)) by {
                        if direction_between(a, k) is Some {
                            lemma_direction_reverse(a, k);
                        }
                    }
                    assert(self.answers_checks(from.index(), a));
                }
            }
            let ghost m0 = moves_of(*v);
            if piece != Piece::Pawn || !promoting {
                self.try_push_move(v, from, attacker_square, MoveType::Capture, &pininfo);
                proof {
                    lemma_slot_square(self.data, capturer.index());
                    lemma_no_repeats_one(m0, moves_of(*v));
                    lemma_no_repeats_join(
                        start,
                        m0,
                        moves_of(*v),
                        |m: Move| (self.rep().slot_at(m.from_idx()) matches Some(c) && !rest0.has(c)),
                    );
                    assert forall|i: int| start.len() <= i < moves_of(*v).len() implies (#[trigger] moves_of(*v)[i]).dest_idx() == a
                        && moves_of(*v)[i].move_kind().captures() && moves_of(*v)[i].move_kind() != MoveType::EnPassant
                        && (self.rep().slot_at(moves_of(*v)[i].from_idx()) matches Some(c) && !it.rest().has(c)) by {
                        if i < m0.len() {
                            assert(moves_of(*v)[i] == moves_of(*v).subrange(0, m0.len() as int)[i]);
                        }
                    }
                    if cond {
                        self.lemma_adds_safe_trans(start, m0, moves_of(*v));
                    }
                    self.lemma_extends_trans(loop_start, m0, moves_of(*v));
                    if moves_of(*v).len() < 256 {
                        assert forall|m: Move|
                            #[trigger] self.sound_move(m) && m.move_kind().captures() && m.dest_idx() == a
                                && (self.rep().slot_at(m.from_idx()) matches Some(c) && capturers.has(c)
                                && !it.rest().has(c)) implies lists(moves_of(*v), m.from_idx(), m.dest_idx(), m.move_kind()) by {
                            let c = self.rep().slot_at(m.from_idx()).unwrap();
                            if c == capturer.index() {
                                assert(self.rep().sq_of(c) == m.from_idx());
                                Move::lemma_fields_range(m);
                            } else {
                                assert(!rest0.has(c));
                                crate::board::position::legality::lemma_lists_extend(m0, moves_of(*v), m.from_idx(), m.dest_idx(), m.move_kind());
                            }
                        }
                    }
                }
                continue;
            }
            self.try_push_move(v, from, attacker_square, MoveType::CapturePromotionQueen, &pininfo);
            let ghost m1 = moves_of(*v);
            self.try_push_move(v, from, attacker_square, MoveType::CapturePromotionKnight, &pininfo);
            let ghost m2 = moves_of(*v);
            self.try_push_move(v, from, attacker_square, MoveType::CapturePromotionRook, &pininfo);
            let ghost m3 = moves_of(*v);
            self.try_push_move(v, from, attacker_square, MoveType::CapturePromotionBishop, &pininfo);
            proof {
                lemma_slot_square(self.data, capturer.index());
                lemma_four_kinds(
                    m0,
                    m1,
                    m2,
                    m3,
                    moves_of(*v),
                    from.index(),
                    a,
                    MoveType::CapturePromotionQueen,
                    MoveType::CapturePromotionKnight,
                    MoveType::CapturePromotionRook,
                    MoveType::CapturePromotionBishop,
                );
                self.lemma_extends_trans(m0, m1, m2);
                self.lemma_extends_trans(m0, m2, m3);
                self.lemma_extends_trans(m0, m3, moves_of(*v));
                lemma_no_repeats_join(
                    start,
                    m0,
                    moves_of(*v),
                    |m: Move| (self.rep().slot_at(m.from_idx()) matches Some(c) && !rest0.has(c)),
                );
                assert forall|i: int| start.len() <= i < moves_of(*v).len() implies (#[trigger] moves_of(*v)[i]).dest_idx() == a
                    && moves_of(*v)[i].move_kind().captures() && moves_of(*v)[i].move_kind() != MoveType::EnPassant
                    && (self.rep().slot_at(moves_of(*v)[i].from_idx()) matches Some(c) && !it.rest().has(c)) by {
                    if i < m0.len() {
                        assert(moves_of(*v)[i] == moves_of(*v).subrange(0, m0.len() as int)[i]);
                    }
                }
                if cond {
                    self.lemma_adds_safe_trans(start, m0, m1);
                    self.lemma_extends_trans(start, m0, m1);
                    self.lemma_adds_safe_trans(start, m1, m2);
                    self.lemma_extends_trans(start, m1, m2);
                    self.lemma_adds_safe_trans(start, m2, m3);
                    self.lemma_extends_trans(start, m2, m3);
                    self.lemma_adds_safe_trans(start, m3, moves_of(*v));
                }
                self.lemma_extends_trans(m0, m1, m2);
                self.lemma_extends_trans(m0, m2, m3);
                self.lemma_extends_trans(m0, m3, moves_of(*v));
                self.lemma_extends_trans(m1, m2, m3);
                self.lemma_extends_trans(m1, m3, moves_of(*v));
                self.lemma_extends_trans(m2, m3, moves_of(*v));
                self.lemma_extends_trans(loop_start, m0, moves_of(*v));
                if moves_of(*v).len() < 256 {
                    assert forall|m: Move|
                        #[trigger] self.sound_move(m) && m.move_kind().captures() && m.dest_idx() == a
                            && (self.rep().slot_at(m.from_idx()) matches Some(c) && capturers.has(c)
                            && !it.rest().has(c)) implies lists(moves_of(*v), m.from_idx(), m.dest_idx(), m.move_kind()) by {
                        let c = self.rep().slot_at(m.from_idx()).unwrap();
                        let w = moves_of(*v);
                        let kd = m.move_kind();
                        if c == capturer.index() {
                            assert(self.rep().sq_of(c) == m.from_idx());
                            Move::lemma_fields_range(m);
                            if kd == MoveType::CapturePromotionQueen {
                                crate::board::position::legality::lemma_lists_extend(m1, w, m.from_idx(), a, kd);
                            } else if kd == MoveType::CapturePromotionKnight {
                                crate::board::position::legality::lemma_lists_extend(m2, w, m.from_idx(), a, kd);
                            } else if kd == MoveType::CapturePromotionRook {
                                crate::board::position::legality::lemma_lists_extend(m3, w, m.from_idx(), a, kd);
                            }
                        } else {
                            assert(!rest0.has(c));
                            crate::board::position::legality::lemma_lists_extend(m0, w, m.from_idx(), a, kd);
                        }
                    }
                }
            }
        }
        let ghost after_caps = moves_of(*v);
        proof {
            self.lemma_extends_refl(after_caps);
            assert(after_caps.len() <= start.len() + 64);
            assert(0 <= sq_rank(a) < 8 && 0 <= sq_file(a) < 8 && 0 <= sq_rank(k) < 8 && 0 <= sq_file(k) < 8);
            assert(dist(a, k) <= 7);
        }
        // En passant, when the checker is the pawn that just moved two squares.
        if let Some(ep) = self.ep {
            if let Some(ep_south) = ep.relative_south(self.side) {
                if ep_south.into_inner() == attacker_square.into_inner() && attacker_piece
                    == Piece::Pawn {
                    let ghost mid = moves_of(*v);
                    self.generate_pawn_enpassant(v, &pininfo);
                    proof {
                        lemma_no_repeats_join(start, mid, moves_of(*v), |m: Move| m.move_kind() != MoveType::EnPassant);
                        if cond {
                            self.lemma_adds_safe_trans(start, mid, moves_of(*v));
                        }
                        self.lemma_extends_trans(start, mid, moves_of(*v));
                        self.lemma_extends_trans(after_caps, mid, moves_of(*v));
                    }
                }
            }
        }
        let ghost before_blocks = moves_of(*v);
        proof {
            self.lemma_extends_refl(before_blocks);
            assert(self.ep_conditions() ==> self.ep_moves_safe(after_caps, before_blocks));
            assert(no_repeats(start, before_blocks));
            assert forall|i: int| start.len() <= i < before_blocks.len() implies (#[trigger] before_blocks[i]).move_kind().captures()
                && (before_blocks[i].dest_idx() == a || (self.at(before_blocks[i].from_idx()) matches Some(pc) && pc.0 == Piece::Pawn)) by {
                if i < after_caps.len() {
                    assert(before_blocks[i] == before_blocks.subrange(0, after_caps.len() as int)[i]);
                }
            }
        }
        // Can we block the check?
        match attacker_piece {
            Piece::Bishop | Piece::Rook | Piece::Queen => {
                let ghost mid = moves_of(*v);
                self.add_blocks(v, king_square, attacker_square, &pininfo);
                proof {
                    self.lemma_extends_trans(before_blocks, mid, moves_of(*v));
                    lemma_no_repeats_join(start, mid, moves_of(*v), |m: Move| m.move_kind().captures());
                    if cond {
                        self.lemma_adds_safe_trans(start, mid, moves_of(*v));
                    }
                    self.lemma_extends_trans(start, mid, moves_of(*v));
                    self.lemma_extends_trans(after_caps, mid, moves_of(*v));
                }
            },
            _ => {},
        }
        let ghost after_blocks = moves_of(*v);
        proof {
            self.lemma_extends_refl(after_blocks);
            assert(no_repeats(start, after_blocks));
            assert(self.at(k) == Some((Piece::King, self.turn())));
            assert forall|i: int| start.len() <= i < after_blocks.len() implies !((#[trigger] after_blocks[i]).from_idx() == k
                && after_blocks[i].dest_idx() != a) by {
                if i < before_blocks.len() {
                    assert(after_blocks[i] == after_blocks.subrange(0, before_blocks.len() as int)[i]);
                }
            }
        }
        // Can we move the king?
        let xray = Self::xray_square(king_square, attacker_square, attacker_piece);
        proof {
            assert(self.xray_valid(k, xray));
        }
        let ghost mid = moves_of(*v);
        self.king_evasions(v, king_square, Some(attacker_square), xray, None);
        proof {
            self.lemma_extends_trans(before_blocks, mid, moves_of(*v));
            if self.ep_conditions() {
                let fin = moves_of(*v);
                assert forall|i: int| start.len() <= i < fin.len() && (#[trigger] fin[i]).move_kind()
                    == MoveType::EnPassant implies self.keeps_king_safe(fin[i]) by {
                    if i < after_caps.len() {
                        assert(fin[i] == fin.subrange(0, after_caps.len() as int)[i]);
                    } else if i < before_blocks.len() {
                        assert(fin[i] == fin.subrange(0, before_blocks.len() as int)[i]);
                    } else if i < after_blocks.len() {
                        assert(fin[i] == fin.subrange(0, after_blocks.len() as int)[i]);
                        assert(!after_blocks[i].move_kind().captures());
                    }
                }
            }
            lemma_no_repeats_join(start, mid, moves_of(*v), |m: Move| !(m.from_idx() == k && m.dest_idx() != a));
            if cond {
                self.lemma_adds_safe_trans(start, mid, moves_of(*v));
            }
            self.lemma_extends_trans(start, mid, moves_of(*v));
            self.lemma_extends_trans(after_caps, mid, moves_of(*v));
            self.lemma_extends_trans(after_blocks, mid, moves_of(*v));
            let fin = moves_of(*v);
            if self.checked() && cond && fin.len() < 256 {
                let side = self.turn();
                assert forall|m: Move| #[trigger] self.sound_move(m) implies lists(
                    fin,
                    m.from_idx(),
                    m.dest_idx(),
                    m.move_kind(),
                ) by {
                    let fr = m.from_idx();
                    let d = m.dest_idx();
                    Move::lemma_fields_range(m);
                    if d == a {
                        assert(m.move_kind().captures());
                        assert(self.rep().attacker_at(fr, a, side));
                        self.rep().lemma_attacker_recorded(fr, a, side);
                        let c = self.rep().slot_at(fr).unwrap();
                        assert(capturers.has(c));
                        assert(after_caps.len() < 256);
                        assert(lists(after_caps, fr, d, m.move_kind()));
                        crate::board::position::legality::lemma_lists_extend(after_caps, fin, fr, d, m.move_kind());
                    } else if fr == k {
                        assert(!self.rep().attacker_at(d, k, enemy));
                        assert(self.lists_king_steps(fin));
                        assert(self.safe_king_step(m));
                    } else {
                        if !strictly_between(a, d, k) {
                            self.lemma_check_stays(m, a);
                        }
                        self.lemma_between_checker(a, d);
                        assert(attacker_piece.is_slider());
                        assert(after_blocks.len() < 256);
                        assert(lists(after_blocks, fr, d, m.move_kind()));
                        crate::board::position::legality::lemma_lists_extend(after_blocks, fin, fr, d, m.move_kind());
                    }
                }
            }
        }
    }

    /// Generate the moves out of a check by two pieces: only the king can move.
    fn generate_double_check(&self, v: &mut ArrayVec<[Move; 256]>)
        requires
            self.rep().has_king(self.turn()),
        ensures
            self.extends(moves_of(*old(v)), moves_of(*final(v))),
            self.at_most_two_checkers() ==> self.adds_safe(moves_of(*old(v)), moves_of(*final(v))),
            !self.single_checker() ==> self.lists_king_steps(moves_of(*final(v))),
            !self.single_checker() ==> self.lists_moves(moves_of(*final(v))),
            no_repeats(moves_of(*old(v)), moves_of(*final(v))),
            self.ep_moves_safe(moves_of(*old(v)), moves_of(*final(v))),
            moves_of(*final(v)).len() <= moves_of(*old(v)).len() + 8,
    {
        proof {
            use_type_invariant(self);
            self.lemma_extends_refl(moves_of(*v));
        }
        let king_square = self.data.king_square(self.side);
        let attacker_bits = self.data.attacks_to(king_square, self.side.not());
        proof {
            self.lemma_checker_count(king_square, attacker_bits);
        }
        let mut it = attacker_bits.into_iter();
        let attacker1_index = match it.next() {
            Some(p) => p,
            None => {
                proof {
                    crate::board::bitlist::lemma_bits_below_zero(32);
                }
                return;
            },
        };
        proof {
            assert(attacker_bits.has(attacker1_index.index()));
        }
        let ghost rest1 = it.rest();
        let attacker2_index = match it.next() {
            Some(p) => p,
            None => {
                proof {
                    crate::board::bitlist::lemma_bits_below_zero(32);
                }
                return;
            },
        };
        proof {
            assert(rest1.has(attacker2_index.index()));
            assert(attacker_bits.has(attacker2_index.index()));
            assert(attacker_bits.has(attacker1_index.index()) <==> (self.data.attacked(king_square.index(), attacker1_index.index()) && 0 <= attacker1_index.index() < 32 && colour_of_index(attacker1_index.index()) == self.side.other()));
            assert(attacker_bits.has(attacker2_index.index()) <==> (self.data.attacked(king_square.index(), attacker2_index.index()) && 0 <= attacker2_index.index() < 32 && colour_of_index(attacker2_index.index()) == self.side.other()));
            lemma_attacker(self.data, king_square.index(), attacker1_index.index());
            lemma_attacker(self.data, king_square.index(), attacker2_index.index());
        }
        let attacker1_piece = self.data.piece_from_bit(attacker1_index);
        let attacker1_square = self.data.square_of_piece(attacker1_index);
        let attacker2_piece = self.data.piece_from_bit(attacker2_index);
        let attacker2_square = self.data.square_of_piece(attacker2_index);
        let xray1 = Self::xray_square(king_square, attacker1_square, attacker1_piece);
        let xray2 = Self::xray_square(king_square, attacker2_square, attacker2_piece);
        proof {
            if self.at_most_two_checkers() {
                let k = king_square.index();
                let enemy = self.turn().other();
                let s1 = attacker1_square.index();
                let s2 = attacker2_square.index();
                assert(self.data.slot_at(s1) == Some(attacker1_index.index()));
                assert(self.data.slot_at(s2) == Some(attacker2_index.index()));
                assert(self.rep().attacker_at(s1, k, enemy));
                assert(self.rep().attacker_at(s2, k, enemy));
                assert(s1 != s2);
                assert forall|s: int|
                    0 <= s < 64 && #[trigger] self.rep().attacker_at(s, k, enemy)
                        && self.at(s).unwrap().0.is_slider() implies xray_listed(s, k, xray1, xray2) by {
                    assert(k == self.king_at(self.turn()));
                    assert(self.rep().attacker_at(s, self.king_at(self.turn()), enemy));
                    assert(self.rep().attacker_at(s1, self.king_at(self.turn()), enemy));
                    assert(self.rep().attacker_at(s2, self.king_at(self.turn()), enemy));
                    assert(s == s1 || s == s2);
                }
            }
        }
        proof {
            let k = king_square.index();
            let s1 = attacker1_square.index();
            let s2 = attacker2_square.index();
            assert(self.data.slot_at(s1) == Some(attacker1_index.index()));
            assert(self.data.slot_at(s2) == Some(attacker2_index.index()));
            assert(self.rep().attacker_at(s1, k, self.turn().other()));
            assert(self.rep().attacker_at(s2, k, self.turn().other()));
            assert(self.xray_valid(k, xray1));
            assert(self.xray_valid(k, xray2));
        }
        self.king_evasions(v, king_square, None, xray1, xray2);
        proof {
            let fin = moves_of(*v);
            let k = king_square.index();
            if fin.len() < 256 {
                self.lemma_king_square();
                assert forall|m: Move| #[trigger] self.sound_move(m) implies lists(
                    fin,
                    m.from_idx(),
                    m.dest_idx(),
                    m.move_kind(),
                ) by {
                    if m.from_idx() == k {
                        assert(self.safe_king_step(m));
                    } else {
                        self.lemma_double_check_king_only(
                            m,
                            attacker1_square.index(),
                            attacker2_square.index(),
                        );
                    }
                }
            }
        }
    }

    /// The side to move holds the right to castle kingside.
    pub open spec fn may_castle_kingside(self) -> bool {
        (self.turn() == Colour::White && self.rights().0) || (self.turn() == Colour::Black
            && self.rights().2)
    }

    /// The side to move holds the right to castle queenside.
    pub open spec fn may_castle_queenside(self) -> bool {
        (self.turn() == Colour::White && self.rights().1) || (self.turn() == Colour::Black
            && self.rights().3)
    }

    /// The rules let the side to move castle kingside: it holds the right, the two squares
    /// east of its king are empty, and no enemy piece attacks them or the king's own square.
    pub open spec fn castle_open_kingside(self) -> bool {
        let k = self.king_at(self.turn());
        let other = self.turn().other();
        &&& self.may_castle_kingside()
        &&& step(k, Direction::East) matches Some(e1)
        &&& step(e1, Direction::East) matches Some(e2)
        &&& self.at(e1) is None
        &&& self.at(e2) is None
        &&& !self.rep().attacked_by(k, other)
        &&& !self.rep().attacked_by(e1, other)
        &&& !self.rep().attacked_by(e2, other)
    }

    /// The rules let the side to move castle queenside: it holds the right, the three squares
    /// west of its king are empty, and no enemy piece attacks the two nearest or the king's
    /// own square.
    pub open spec fn castle_open_queenside(self) -> bool {
        let k = self.king_at(self.turn());
        let other = self.turn().other();
        &&& self.may_castle_queenside()
        &&& step(k, Direction::West) matches Some(w1)
        &&& step(w1, Direction::West) matches Some(w2)
        &&& step(w2, Direction::West) matches Some(w3)
        &&& self.at(w1) is None
        &&& self.at(w2) is None
        &&& self.at(w3) is None
        &&& !self.rep().attacked_by(k, other)
        &&& !self.rep().attacked_by(w1, other)
        &&& !self.rep().attacked_by(w2, other)
    }

    /// True if `v`, unless it has filled up to its capacity of 256 moves, holds each castling
    /// move that the rules allow: the king two squares east, or two squares west.
    pub open spec fn lists_castling(self, v: Seq<Move>) -> bool {
        let k = self.king_at(self.turn());
        v.len() < 256 ==> {
            &&& self.castle_open_kingside() ==> lists(
                v,
                k,
                step(step(k, Direction::East).unwrap(), Direction::East).unwrap(),
                MoveType::KingsideCastle,
            )
            &&& self.castle_open_queenside() ==> lists(
                v,
                k,
                step(step(k, Direction::West).unwrap(), Direction::West).unwrap(),
                MoveType::QueensideCastle,
            )
        }
    }

    /// The table of enemy attacks on square `t` is empty exactly when no enemy piece attacks
    /// it.
    proof fn lemma_unattacked(self, t: int, found: Bitlist)
        requires
            self.rep().wf(),
            0 <= t < 64,
            forall|i: int|
                #[trigger] found.has(i) <==> (self.rep().attacked(t, i) && 0 <= i < 32 && colour_of_index(i)
                    == self.turn().other()),
        ensures
            found@ == 0 <==> !self.rep().attacked_by(t, self.turn().other()),
    {
        Bitlist::lemma_empty(found);
        if found@ != 0 {
            let i = choose|i: int| !!found.has(i);
            lemma_attacker(self.rep(), t, i);
            assert(self.rep().attacker_at(self.rep().sq_of(i), t, self.turn().other()));
        }
        if self.rep().attacked_by(t, self.turn().other()) {
            let p = choose|p: int| 0 <= p < 64 && #[trigger] self.rep().attacker_at(p, t, self.turn().other());
            self.rep().lemma_attacker_recorded(p, t, self.turn().other());
            assert(found.has(self.rep().slot_at(p).unwrap()));
        }
    }

    /// Captures, then moves other than castling, then lawful castling moves: the whole adds
    /// only lawful castling moves.
    proof fn lemma_lawful_castling_segments(
        self,
        start: Seq<Move>,
        a: Seq<Move>,
        b: Seq<Move>,
        c: Seq<Move>,
        fin: Seq<Move>,
    )
        requires
            start.len() <= a.len() <= b.len() <= c.len() <= fin.len(),
            a.subrange(0, start.len() as int) == start,
            fin.subrange(0, a.len() as int) == a,
            fin.subrange(0, b.len() as int) == b,
            fin.subrange(0, c.len() as int) == c,
            Self::adds_captures(start, a),
            no_castling(a, b),
            self.adds_lawful_castling(b, c),
            self.adds_lawful_castling(c, fin),
        ensures
            self.adds_lawful_castling(start, fin),
    {
        assert forall|i: int| start.len() <= i < c.len() implies #[trigger] fin[i] == c[i] by {
            assert(fin[i] == fin.subrange(0, c.len() as int)[i]);
        }
        assert forall|i: int| start.len() <= i < b.len() implies (#[trigger] fin[i]).move_kind()
            != MoveType::KingsideCastle && fin[i].move_kind() != MoveType::QueensideCastle by {
            if i < a.len() {
                assert(fin[i] == fin.subrange(0, a.len() as int)[i]);
                assert(a[i].move_kind().captures());
            } else {
                assert(fin[i] == fin.subrange(0, b.len() as int)[i]);
            }
        }
    }

    /// A run without repeats of captures ranked above `r`, then a run without repeats of
    /// captures ranked `r`, make one run without repeats of captures ranked `r` or above.
    proof fn lemma_join_capture_rank(self, start: Seq<Move>, a: Seq<Move>, b: Seq<Move>, r: int)
        requires
            start.len() <= a.len() <= b.len(),
            b.subrange(0, a.len() as int) == a,
            no_repeats(start, a),
            no_repeats(a, b),
            forall|i: int| start.len() <= i < a.len() ==> self.capture_rank(#[trigger] a[i]) > r,
            forall|i: int| a.len() <= i < b.len() ==> self.capture_rank(#[trigger] b[i]) == r,
        ensures
            no_repeats(start, b),
            forall|i: int| start.len() <= i < b.len() ==> self.capture_rank(#[trigger] b[i]) >= r,
    {
        assert forall|i: int| start.len() <= i < a.len() implies #[trigger] b[i] == a[i] by {
            assert(b[i] == b.subrange(0, a.len() as int)[i]);
        }
        lemma_no_repeats_join(start, a, b, |m: Move| self.capture_rank(m) > r);
    }

    /// The moves `v` adds to `start` while `generate` walks the pawns: first captures, up to
    /// `ac`, then quiet moves of the pawns of `pawns` that `rest` does not hold.
    pub open spec fn pawn_stage(self, start: Seq<Move>, ac: Seq<Move>, v: Seq<Move>, pawns: Bitlist, rest: Bitlist) -> bool {
        forall|i: int|
            start.len() <= i < v.len() ==> {
                ||| i < ac.len() && (#[trigger] v[i]).move_kind().captures()
                ||| ac.len() <= i && !v[i].move_kind().captures() && (self.rep().slot_at(v[i].from_idx()) matches Some(c)
                    && pawns.has(c) && !rest.has(c))
            }
    }

    /// The moves `v` adds to `start` while `generate` walks the squares: captures up to `ac`,
    /// quiet pawn moves up to `ap`, then plain moves of other pieces to squares below `below`.
    pub open spec fn piece_stage(self, start: Seq<Move>, ac: Seq<Move>, ap: Seq<Move>, v: Seq<Move>, below: int) -> bool {
        forall|i: int|
            start.len() <= i < v.len() ==> {
                ||| i < ac.len() && (#[trigger] v[i]).move_kind().captures()
                ||| ac.len() <= i < ap.len() && !v[i].move_kind().captures() && (self.rep().slot_at(v[i].from_idx()) matches Some(c)
                    && self.rep().kind(c) == Some(Piece::Pawn))
                ||| ap.len() <= i && v[i].move_kind() == MoveType::Normal && v[i].dest_idx() < below && (self.rep().slot_at(
                    v[i].from_idx(),
                ) matches Some(c) && self.rep().kind(c) != Some(Piece::Pawn))
            }
    }

    /// Every castling move that `after` adds to `before` is one the rules allow: the king of
    /// the side to move two squares east or west, with castling that way open.
    pub open spec fn adds_lawful_castling(self, before: Seq<Move>, after: Seq<Move>) -> bool {
        let k = self.king_at(self.turn());
        forall|i: int|
            before.len() <= i < after.len() ==> {
                &&& (#[trigger] after[i]).move_kind() == MoveType::KingsideCastle ==> {
                    &&& self.castle_open_kingside()
                    &&& after[i].from_idx() == k
                    &&& after[i].dest_idx() == step(step(k, Direction::East).unwrap(), Direction::East).unwrap()
                }
                &&& after[i].move_kind() == MoveType::QueensideCastle ==> {
                    &&& self.castle_open_queenside()
                    &&& after[i].from_idx() == k
                    &&& after[i].dest_idx() == step(step(k, Direction::West).unwrap(), Direction::West).unwrap()
                }
            }
    }

    /// The squares east of `k` that kingside castling passes, and west of `k` that queenside
    /// castling passes, are on the board.
    pub open spec fn room_to_castle(k: int, kingside: bool) -> bool {
        if kingside {
            step(k, Direction::East) is Some && step(step(k, Direction::East).unwrap(), Direction::East)
                is Some
        } else {
            step(k, Direction::West) is Some && step(step(k, Direction::West).unwrap(), Direction::West)
                is Some && step(
                step(step(k, Direction::West).unwrap(), Direction::West).unwrap(),
                Direction::West,
            ) is Some
        }
    }

    /// A right of `colour` to castle comes with room on the board for it around each king of
    /// that colour.
    pub open spec fn castling_room_for(self, colour: Colour) -> bool {
        forall|k: int|
            0 <= k < 64 && #[trigger] self.at(k) == Some((Piece::King, colour)) ==> {
                &&& (if colour == Colour::White {
                    self.rights().0
                } else {
                    self.rights().2
                }) ==> Self::room_to_castle(k, true)
                &&& (if colour == Colour::White {
                    self.rights().1
                } else {
                    self.rights().3
                }) ==> Self::room_to_castle(k, false)
            }
    }

    /// A right of the side to move to castle comes with room on the board for it.
    pub open spec fn castling_room(self) -> bool {
        self.castling_room_for(self.turn())
    }

    /// True if `generate` can run on this position: the side to move has a king, and each of
    /// its castling rights comes with room on the board to castle.
    #[verifier::rlimit(30)]
    pub fn can_generate(&self) -> (r: bool)
        ensures
            r == (self.rep().has_king(self.turn()) && self.castling_room()),
    {
        proof {
            use_type_invariant(self);
        }
        if self.has_no_king(self.side) {
            return false;
        }
        let (kingside, queenside) = match self.side {
            Colour::White => (self.castle.0, self.castle.1),
            Colour::Black => (self.castle.2, self.castle.3),
        };
        let mut sq: u8 = 0;
        while sq < 64
            invariant
                sq <= 64,
                self.rep().wf(),
                kingside == if self.turn() == Colour::White {
                    self.rights().0
                } else {
                    self.rights().2
                },
                queenside == if self.turn() == Colour::White {
                    self.rights().1
                } else {
                    self.rights().3
                },
                forall|k: int|
                    0 <= k < sq && #[trigger] self.at(k) == Some((Piece::King, self.turn())) ==> {
                        &&& kingside ==> Self::room_to_castle(k, true)
                        &&& queenside ==> Self::room_to_castle(k, false)
                    },
            decreases 64 - sq,
        {
            let square = Square::from_u8_unchecked(sq);
            let piece = self.data.piece_from_square(square);
            let colour = self.data.colour_from_square(square);
            if piece == Some(Piece::King) && colour == Some(self.side) {
                proof {
                    assert(self.at(sq as int) == Some((Piece::King, self.turn())));
                }
                let file = sq % 8;
                if kingside && file > 5 {
                    return false;
                }
                if queenside && file < 3 {
                    return false;
                }
            } else {
                proof {
                    assert(self.at(sq as int) != Some((Piece::King, self.turn())));
                }
            }
            sq += 1;
        }
        true
    }

    /// True if `make` can play `m` on this position: the conditions of `move_ok`, checked on
    /// the squares.
    pub fn can_make(&self, m: Move) -> (r: bool)
        ensures
            r == self.move_ok(m),
    {
        proof {
            use_type_invariant(self);
        }
        let from = m.from();
        let dest = m.dest();
        if from.into_inner() == dest.into_inner() {
            return false;
        }
        if self.data.colour_from_square(from) != Some(self.side) {
            return false;
        }
        let d = dest.into_inner();
        let kind = m.kind();
        match kind {
            MoveType::EnPassant => {
                let ep = match self.ep {
                    Some(ep) => ep,
                    None => {
                        return false;
                    },
                };
                let victim = match ep.relative_south(self.side) {
                    Some(v) => v,
                    None => {
                        return false;
                    },
                };
                self.data.has_piece(victim) && victim.into_inner() != from.into_inner()
                    && !self.data.has_piece(dest)
            },
            MoveType::Capture
            | MoveType::CapturePromotionKnight
            | MoveType::CapturePromotionBishop
            | MoveType::CapturePromotionRook
            | MoveType::CapturePromotionQueen => self.data.has_piece(dest),
            MoveType::KingsideCastle => {
                let file = d % 8;
                if file == 7 || file == 0 {
                    return false;
                }
                let rook_from = Square::from_u8_unchecked(d + 1);
                let rook_to = Square::from_u8_unchecked(d - 1);
                !self.data.has_piece(dest) && self.data.has_piece(rook_from) && !self.data.has_piece(
                    rook_to,
                ) && rook_from.into_inner() != from.into_inner()
            },
            MoveType::QueensideCastle => {
                let file = d % 8;
                if file < 2 || file == 7 {
                    return false;
                }
                let rook_from = Square::from_u8_unchecked(d - 2);
                let rook_to = Square::from_u8_unchecked(d + 1);
                !self.data.has_piece(dest) && self.data.has_piece(rook_from) && !self.data.has_piece(
                    rook_to,
                ) && rook_from.into_inner() != from.into_inner()
            },
            _ => !self.data.has_piece(dest),
        }
    }

    /// The number of enemy pieces recorded as attacking the king square bounds the number of
    /// checking pieces, and none recorded means no check.
    proof fn lemma_checker_count(self, king_square: Square, checks: Bitlist)
        requires
            self.rep().wf(),
            king_square.index() == self.king_at(self.turn()),
            forall|i: int|
                checks.has(i) <==> (self.rep().attacked(king_square.index(), i) && 0 <= i < 32
                    && colour_of_index(i) == self.turn().other()),
        ensures
            popcount(checks@) == 0 ==> !self.checked(),
            popcount(checks@) <= 1 ==> self.single_checker(),
            popcount(checks@) <= 2 ==> self.at_most_two_checkers(),
            popcount(checks@) >= 3 ==> !self.at_most_two_checkers(),
            popcount(checks@) >= 2 ==> !self.single_checker(),
    {
        let data = self.rep();
        let k = king_square.index();
        let enemy = self.turn().other();
        if popcount(checks@) == 0 && self.checked() {
            let s = choose|s: int| 0 <= s < 64 && #[trigger] data.attacker_at(s, k, enemy);
            data.lemma_attacker_recorded(s, k, enemy);
            let i = data.slot_at(s).unwrap();
            assert(checks.has(i));
            crate::board::bitlist::lemma_popcount_one(checks@, i);
        }
        assert forall|s: int, t: int|
            0 <= s < 64 && 0 <= t < 64 && #[trigger] data.attacker_at(s, k, enemy)
                && #[trigger] data.attacker_at(t, k, enemy) && s != t implies popcount(checks@) >= 2 by {
            data.lemma_attacker_recorded(s, k, enemy);
            data.lemma_attacker_recorded(t, k, enemy);
            let i = data.slot_at(s).unwrap();
            let j = data.slot_at(t).unwrap();
            assert(checks.has(i));
            assert(checks.has(j));
            crate::board::bitlist::lemma_popcount_two(checks@, i, j);
        }
        assert forall|s: int, t: int, u: int|
            0 <= s < 64 && 0 <= t < 64 && 0 <= u < 64 && #[trigger] data.attacker_at(s, k, enemy)
                && #[trigger] data.attacker_at(t, k, enemy) && #[trigger] data.attacker_at(u, k, enemy)
                && s != t && s != u && t != u implies popcount(checks@) >= 3 by {
            data.lemma_attacker_recorded(s, k, enemy);
            data.lemma_attacker_recorded(t, k, enemy);
            data.lemma_attacker_recorded(u, k, enemy);
            let i = data.slot_at(s).unwrap();
            let j = data.slot_at(t).unwrap();
            let l = data.slot_at(u).unwrap();
            assert(checks.has(i));
            assert(checks.has(j));
            assert(checks.has(l));
            crate::board::bitlist::lemma_popcount_three(checks@, i, j, l);
        }
        if popcount(checks@) >= 2 {
            let (a, b) = crate::board::bitlist::lemma_popcount_witness2(checks@);
            assert(checks.has(a));
            assert(checks.has(b));
            assert(colour_of_index(a) == enemy && colour_of_index(b) == enemy);
            assert(data.attacked(k, a) && data.attacked(k, b));
            lemma_attacker(data, k, a);
            lemma_attacker(data, k, b);
            assert(data.slot_at(data.sq_of(a)) == Some(a));
            assert(data.slot_at(data.sq_of(b)) == Some(b));
            assert(data.attacker_at(data.sq_of(a), k, enemy));
            assert(data.attacker_at(data.sq_of(b), k, enemy));
        }
        if popcount(checks@) >= 3 {
            let (a, b, c) = crate::board::bitlist::lemma_popcount_witness3(checks@);
            assert(checks.has(a));
            assert(checks.has(b));
            assert(checks.has(c));
            assert(colour_of_index(a) == enemy && colour_of_index(b) == enemy && colour_of_index(c) == enemy);
            assert(data.attacked(k, a) && data.attacked(k, b) && data.attacked(k, c));
            lemma_attacker(data, k, a);
            lemma_attacker(data, k, b);
            lemma_attacker(data, k, c);
            let sa = data.sq_of(a);
            let sb = data.sq_of(b);
            let sc = data.sq_of(c);
            assert(data.slot_at(sa) == Some(a));
            assert(data.slot_at(sb) == Some(b));
            assert(data.slot_at(sc) == Some(c));
            assert(data.attacker_at(sa, k, enemy));
            assert(data.attacker_at(sb, k, enemy));
            assert(data.attacker_at(sc, k, enemy));
        }
    }

    /// The side to move is in check when some enemy piece attacks its king square.
    proof fn lemma_checkers(self, king_square: Square, checks: Bitlist)
        requires
            self.rep().wf(),
            king_square.index() == self.king_at(self.turn()),
            forall|i: int|
                checks.has(i) <==> (self.rep().attacked(king_square.index(), i) && 0 <= i < 32
                    && colour_of_index(i) == self.turn().other()),
            popcount(checks@) > 0,
        ensures
            self.checked(),
    {
        crate::board::bitlist::lemma_bits_below_zero(32);
        Bitlist::lemma_empty(checks);
        let i = choose|i: int| checks.has(i);
        assert(checks.has(i));
        assert(0 <= i < 32 && colour_of_index(i) == self.turn().other());
        assert(self.rep().attacked(king_square.index(), i));
        self.rep().lemma_attacked_by(king_square.index(), self.turn().other());
    }

    /// Generate the moves of the position: those out of check when in check, otherwise the
    /// captures, pawn pushes, other quiet moves and castling. Unless three or more pieces give
    /// check, every move added other than en passant and castling keeps the king safe, and
    /// every such move that keeps it safe is added (while the list has room); out of check,
    /// castling is added exactly when the rules open it.
    #[verifier::spinoff_prover]
    #[verifier::rlimit(60)]
    pub fn generate(&self, v: &mut ArrayVec<[Move; 256]>)
        requires
            self.rep().has_king(self.turn()),
            self.castling_room(),
        ensures
            self.extends(moves_of(*old(v)), moves_of(*final(v))),
            !self.checked() ==> self.adds_safe(moves_of(*old(v)), moves_of(*final(v))),
            self.at_most_two_checkers() ==> self.adds_safe(moves_of(*old(v)), moves_of(*final(v))),
            self.checked() && self.at_most_two_checkers() ==> self.lists_king_steps(moves_of(*final(v))),
            !self.checked() ==> self.lists_captures(moves_of(*final(v))),
            !self.checked() ==> self.lists_quiet(moves_of(*final(v))),
            self.checked() && self.at_most_two_checkers() ==> self.lists_moves(moves_of(*final(v))),
            self.at_most_two_checkers() ==> self.lists_replies(moves_of(*final(v))),
            self.lists_castling(moves_of(*final(v))),
            !self.checked() ==> self.adds_lawful_castling(moves_of(*old(v)), moves_of(*final(v))),
            no_repeats(moves_of(*old(v)), moves_of(*final(v))),
            self.ep_conditions() ==> self.ep_moves_safe(moves_of(*old(v)), moves_of(*final(v))),
            !self.checked() && self.ep_ready() ==> self.lists_ep(moves_of(*final(v))),
    {
        proof {
            use_type_invariant(self);
            self.lemma_extends_refl(moves_of(*v));
        }
        let ghost start = moves_of(*v);
        let king_square = self.data.king_square(self.side);
        let checks = self.data.attacks_to(king_square, self.side.not());
        let check_count = checks.count_ones();
        proof {
            if check_count > 0 {
                self.lemma_checkers(king_square, checks);
            }
            self.lemma_checker_count(king_square, checks);
        }
        if check_count == 1 {
            self.generate_single_check(v);
            return;
        }
        if check_count == 2 {
            self.generate_double_check(v);
            return;
        }
        let pininfo = PinInfo::discover(self);
        self.generate_captures(v);
        let ghost after_captures = moves_of(*v);
        proof {
            self.lemma_extends_refl(after_captures);
        }
        proof {
            if !self.checked() {
                assert(self.calm(pininfo));
            }
        }
        let pm = self.data.piecemask();
        // Pawns.
        let pawns = pm.pawns().and(Bitlist::mask_from_colour(self.side));
        proof {
            assert forall|i: int| #[trigger] pawns.has(i) <==> (self.data.kind(i) == Some(Piece::Pawn)
                && 0 <= i < 32 && colour_of_index(i) == self.side) by {
                if 0 <= i < 32 {
                    Bitlist::lemma_colour_bits(self.side, i);
                }
            }
        }
        let mut it = pawns.into_iter();
        loop
            invariant
                self.data.wf(),
                start == moves_of(*old(v)),
                self.extends(start, moves_of(*v)),
                self.extends(after_captures, moves_of(*v)),
                no_castling(after_captures, moves_of(*v)),
                start.len() <= after_captures.len(),
                no_repeats(start, moves_of(*v)),
                self.pawn_stage(start, after_captures, moves_of(*v), pawns, it.rest()),
                self.calm(pininfo) ==> self.adds_safe(start, moves_of(*v)),
                self.pins_known(pininfo),
                forall|i: int| #[trigger] it.rest().has(i) ==> pawns.has(i),
                forall|i: int|
                    #[trigger] pawns.has(i) <==> (self.data.kind(i) == Some(Piece::Pawn) && 0 <= i < 32
                        && colour_of_index(i) == self.side),
                moves_of(*v).len() < 256 ==> forall|m: Move|
                    #[trigger] self.sound_move(m) && !m.move_kind().captures() && (self.rep().slot_at(m.from_idx()) matches Some(
                        c,
                    ) && pawns.has(c) && !it.rest().has(c)) ==> lists(
                        moves_of(*v),
                        m.from_idx(),
                        m.dest_idx(),
                        m.move_kind(),
                    ),
            ensures
                forall|i: int| !it.rest().has(i),
            decreases popcount(it.rest()@),
        {
            let ghost rest0 = it.rest();
            let pawn = match it.next() {
                None => {
                    proof {
                        Bitlist::lemma_empty(it.rest());
                    }
                    break;
                },
                Some(p) => p,
            };
            proof {
                assert(pawns.has(pawn.index()));
                lemma_slot_square(self.data, pawn.index());
            }
            let from = self.data.square_of_piece(pawn);
            let ghost mid = moves_of(*v);
            self.generate_pawn_quiet(v, from, &pininfo);
            proof {
                lemma_no_repeats_join(
                    start,
                    mid,
                    moves_of(*v),
                    |m: Move| m.move_kind().captures() || (self.rep().slot_at(m.from_idx()) matches Some(c) && !rest0.has(c)),
                );
                assert forall|i: int| start.len() <= i < moves_of(*v).len() implies {
                    ||| i < after_captures.len() && (#[trigger] moves_of(*v)[i]).move_kind().captures()
                    ||| after_captures.len() <= i && !moves_of(*v)[i].move_kind().captures() && (self.rep().slot_at(
                        moves_of(*v)[i].from_idx(),
                    ) matches Some(c) && pawns.has(c) && !it.rest().has(c))
                } by {
                    if i < mid.len() {
                        assert(moves_of(*v)[i] == moves_of(*v).subrange(0, mid.len() as int)[i]);
                    }
                }
                lemma_no_castling_trans(after_captures, mid, moves_of(*v));
                if self.calm(pininfo) {
                    self.lemma_adds_safe_trans(start, mid, moves_of(*v));
                }
                self.lemma_extends_trans(start, mid, moves_of(*v));
                self.lemma_extends_trans(after_captures, mid, moves_of(*v));
                if moves_of(*v).len() < 256 {
                    assert forall|m: Move|
                        #[trigger] self.sound_move(m) && !m.move_kind().captures() && (self.rep().slot_at(
                            m.from_idx(),
                        ) matches Some(c) && pawns.has(c) && !it.rest().has(c)) implies lists(
                        moves_of(*v),
                        m.from_idx(),
                        m.dest_idx(),
                        m.move_kind(),
                    ) by {
                        let c = self.rep().slot_at(m.from_idx()).unwrap();
                        if c == pawn.index() {
                            assert(self.rep().sq_of(c) == m.from_idx());
                        } else {
                            assert(!rest0.has(c));
                            crate::board::position::legality::lemma_lists_extend(
                                mid,
                                moves_of(*v),
                                m.from_idx(),
                                m.dest_idx(),
                                m.move_kind(),
                            );
                        }
                    }
                }
            }
        }
        let ghost after_pawns = moves_of(*v);
        proof {
            assert forall|i: int| start.len() <= i < after_pawns.len() implies {
                ||| i < after_captures.len() && (#[trigger] after_pawns[i]).move_kind().captures()
                ||| after_captures.len() <= i < after_pawns.len() && !after_pawns[i].move_kind().captures() && (self.rep().slot_at(
                    after_pawns[i].from_idx(),
                ) matches Some(c) && self.rep().kind(c) == Some(Piece::Pawn))
                ||| after_pawns.len() <= i && after_pawns[i].move_kind() == MoveType::Normal && after_pawns[i].dest_idx() < 0 && (self.rep().slot_at(
                    after_pawns[i].from_idx(),
                ) matches Some(c) && self.rep().kind(c) != Some(Piece::Pawn))
            } by {
                if after_captures.len() <= i {
                    let c = self.rep().slot_at(after_pawns[i].from_idx()).unwrap();
                    assert(pawns.has(c));
                }
            }
            self.lemma_extends_refl(after_pawns);
            self.lemma_king_square();
        }
        // Other quiet moves; the king may not step to an attacked square.
        let mut dest_index: u8 = 0;
        while dest_index < 64
            invariant
                self.data.wf(),
                *pm == self.data.mask(),
                forall|i: int| 0 <= i < 32 ==> #[trigger] pm.slot(i) == self.data.kind(i),
                start == moves_of(*old(v)),
                self.extends(start, moves_of(*v)),
                self.extends(after_captures, moves_of(*v)),
                no_castling(after_captures, moves_of(*v)),
                self.extends(after_pawns, moves_of(*v)),
                start.len() <= after_captures.len() <= after_pawns.len(),
                no_repeats(start, moves_of(*v)),
                self.piece_stage(start, after_captures, after_pawns, moves_of(*v), dest_index as int),
                self.calm(pininfo) ==> self.adds_safe(start, moves_of(*v)),
                self.pins_known(pininfo),
                self.at(self.king_at(self.turn())) == Some((Piece::King, self.turn())),
                moves_of(*v).len() < 256 ==> forall|m: Move|
                    #[trigger] self.sound_move(m) && !m.move_kind().captures() && self.at(m.from_idx()).unwrap().0
                        != Piece::Pawn && m.dest_idx() < dest_index ==> lists(
                        moves_of(*v),
                        m.from_idx(),
                        m.dest_idx(),
                        m.move_kind(),
                    ),
            decreases 64 - dest_index,
        {
            let dest = Square::from_u8_unchecked(dest_index);
            if !self.data.has_piece(dest) {
                let attackers = self.data.attacks_to(dest, self.side);
                let non_pawns = pm.pawns().invert();
                let movers = attackers.and(non_pawns);
                let guards = self.data.attacks_to(dest, self.side.not());
                proof {
                    Bitlist::lemma_empty(guards);
                    if guards@ != 0 {
                        let i = choose|i: int| guards.has(i);
                        assert(guards.has(i));
                        assert(0 <= i < 32 && colour_of_index(i) == self.turn().other());
                        assert(self.rep().attacked(dest.index(), i));
                    }
                    self.data.lemma_attacked_by(dest.index(), self.side.other());
                }
                let non_kings = pm.kings().invert();
                let movers = if guards.empty() {
                    movers
                } else {
                    movers.and(non_kings)
                };
                let ghost mid = moves_of(*v);
                self.push_quiet(v, movers, dest, &pininfo);
                proof {
                    lemma_no_repeats_join(
                        start,
                        mid,
                        moves_of(*v),
                        |m: Move| m.move_kind() != MoveType::Normal || m.dest_idx() < dest_index || (self.rep().slot_at(
                            m.from_idx(),
                        ) matches Some(c) && self.rep().kind(c) == Some(Piece::Pawn)),
                    );
                    assert forall|i: int| start.len() <= i < moves_of(*v).len() implies {
                        ||| i < after_captures.len() && (#[trigger] moves_of(*v)[i]).move_kind().captures()
                        ||| after_captures.len() <= i < after_pawns.len() && !moves_of(*v)[i].move_kind().captures() && (self.rep().slot_at(
                            moves_of(*v)[i].from_idx(),
                        ) matches Some(c) && self.rep().kind(c) == Some(Piece::Pawn))
                        ||| after_pawns.len() <= i && moves_of(*v)[i].move_kind() == MoveType::Normal && moves_of(*v)[i].dest_idx() < dest_index + 1 && (self.rep().slot_at(
                            moves_of(*v)[i].from_idx(),
                        ) matches Some(c) && self.rep().kind(c) != Some(Piece::Pawn))
                    } by {
                        if i < mid.len() {
                            assert(moves_of(*v)[i] == moves_of(*v).subrange(0, mid.len() as int)[i]);
                        } else {
                            let c = self.rep().slot_at(moves_of(*v)[i].from_idx()).unwrap();
                            assert(movers.has(c));
                            assert(pm.slot(c) == self.rep().kind(c));
                        }
                    }
                    lemma_no_castling_trans(after_captures, mid, moves_of(*v));
                    if self.calm(pininfo) {
                        self.lemma_adds_safe_trans(start, mid, moves_of(*v));
                    }
                    self.lemma_extends_trans(start, mid, moves_of(*v));
                    self.lemma_extends_trans(after_captures, mid, moves_of(*v));
                    self.lemma_extends_trans(after_pawns, mid, moves_of(*v));
                    if moves_of(*v).len() < 256 {
                        let side = self.turn();
                        assert forall|m: Move|
                            #[trigger] self.sound_move(m) && !m.move_kind().captures() && self.at(m.from_idx()).unwrap().0
                                != Piece::Pawn && m.dest_idx() < dest_index + 1 implies lists(
                            moves_of(*v),
                            m.from_idx(),
                            m.dest_idx(),
                            m.move_kind(),
                        ) by {
                            if m.dest_idx() == dest_index {
                                let fr = m.from_idx();
                                Move::lemma_fields_range(m);
                                assert(m.move_kind() == MoveType::Normal);
                                assert(self.rep().attacker_at(fr, dest.index(), side));
                                self.rep().lemma_attacker_recorded(fr, dest.index(), side);
                                let c = self.rep().slot_at(fr).unwrap();
                                assert(attackers.has(c));
                                assert(pm.slot(c) == self.rep().kind(c));
                                assert(non_pawns.has(c));
                                if guards@ != 0 {
                                    if self.at(fr).unwrap().0 == Piece::King {
                                        self.lemma_king_step_attacked(m);
                                    }
                                    assert(non_kings.has(c));
                                }
                                assert(movers.has(c));
                            } else {
                                crate::board::position::legality::lemma_lists_extend(
                                    mid,
                                    moves_of(*v),
                                    m.from_idx(),
                                    m.dest_idx(),
                                    m.move_kind(),
                                );
                            }
                        }
                    }
                }
            } else {
                proof {
                    assert forall|m: Move|
                        #[trigger] self.sound_move(m) && !m.move_kind().captures() implies m.dest_idx() != dest_index by {
                        Move::lemma_fields_range(m);
                    }
                }
            }
            dest_index += 1;
        }
        let ghost after_dests = moves_of(*v);
        proof {
            lemma_slot_square(self.data, self.data.king_slot(self.side));
            self.lemma_extends_refl(after_dests);
        }
        // Kingside castling.
        if (self.side == Colour::White && self.castle.0) || (self.side == Colour::Black
            && self.castle.2) {
            if let Some(east1) = king_square.east() {
                if let Some(east2) = east1.east() {
                    let king_attackers = self.data.attacks_to(king_square, self.side.not());
                    let east1_attackers = self.data.attacks_to(east1, self.side.not());
                    let east2_attackers = self.data.attacks_to(east2, self.side.not());
                    proof {
                        self.lemma_unattacked(king_square.index(), king_attackers);
                        self.lemma_unattacked(east1.index(), east1_attackers);
                        self.lemma_unattacked(east2.index(), east2_attackers);
                    }
                    if king_attackers.empty() && !self.data.has_piece(east1) && east1_attackers.empty()
                        && !self.data.has_piece(east2) && east2_attackers.empty() {
                        let ghost mid = moves_of(*v);
                        self.try_push_move(v, king_square, east2, MoveType::KingsideCastle, &pininfo);
                        proof {
                            lemma_no_repeats_one(mid, moves_of(*v));
                            assert forall|i: int| start.len() <= i < mid.len() implies (#[trigger] mid[i]).move_kind()
                                != MoveType::KingsideCastle by {
                                if i >= after_captures.len() {
                                    assert(mid[i].move_kind() != MoveType::KingsideCastle);
                                }
                            }
                            lemma_no_repeats_join(start, mid, moves_of(*v), |m: Move| m.move_kind() != MoveType::KingsideCastle);
                            assert forall|i: int| mid.len() <= i < moves_of(*v).len() implies
                                #[trigger] self.safe_or_special(moves_of(*v)[i]) by {
                                assert(moves_of(*v)[i].move_kind() == MoveType::KingsideCastle);
                            }
                            if self.calm(pininfo) {
                                self.lemma_adds_safe_trans(start, mid, moves_of(*v));
                            }
                            self.lemma_extends_trans(start, mid, moves_of(*v));
                            self.lemma_extends_trans(after_captures, mid, moves_of(*v));
                            self.lemma_extends_trans(after_pawns, mid, moves_of(*v));
                            self.lemma_extends_trans(after_dests, mid, moves_of(*v));
                            assert(self.castle_open_kingside());
                            assert(self.adds_lawful_castling(mid, moves_of(*v)));
                        }
                    }
                }
            }
        }
        let ghost after_kingside = moves_of(*v);
        proof {
            assert(no_repeats(start, after_kingside));
            assert forall|i: int| start.len() <= i < after_kingside.len() implies (#[trigger] after_kingside[i]).move_kind()
                != MoveType::QueensideCastle by {
                if i < after_dests.len() {
                    assert(after_kingside[i] == after_kingside.subrange(0, after_dests.len() as int)[i]);
                    if i >= after_captures.len() {
                        assert(after_dests[i].move_kind() != MoveType::QueensideCastle);
                    }
                }
            }
            self.lemma_extends_refl(after_kingside);
            assert(self.adds_lawful_castling(after_dests, after_kingside));
            assert(self.castle_open_kingside() && after_kingside.len() < 256 ==> lists(
                after_kingside,
                self.king_at(self.turn()),
                step(step(self.king_at(self.turn()), Direction::East).unwrap(), Direction::East).unwrap(),
                MoveType::KingsideCastle,
            ));
        }
        // Queenside castling.
        if (self.side == Colour::White && self.castle.1) || (self.side == Colour::Black
            && self.castle.3) {
            if let Some(west1) = king_square.west() {
                if let Some(west2) = west1.west() {
                    if let Some(west3) = west2.west() {
                        let king_attackers = self.data.attacks_to(king_square, self.side.not());
                        let west1_attackers = self.data.attacks_to(west1, self.side.not());
                        let west2_attackers = self.data.attacks_to(west2, self.side.not());
                        proof {
                            self.lemma_unattacked(king_square.index(), king_attackers);
                            self.lemma_unattacked(west1.index(), west1_attackers);
                            self.lemma_unattacked(west2.index(), west2_attackers);
                        }
                        if king_attackers.empty() && !self.data.has_piece(west1) && west1_attackers.empty()
                            && !self.data.has_piece(west2) && west2_attackers.empty()
                            && !self.data.has_piece(west3) {
                            let ghost mid = moves_of(*v);
                            self.try_push_move(
                                v,
                                king_square,
                                west2,
                                MoveType::QueensideCastle,
                                &pininfo,
                            );
                            proof {
                                lemma_no_repeats_one(mid, moves_of(*v));
                                lemma_no_repeats_join(start, mid, moves_of(*v), |m: Move| m.move_kind() != MoveType::QueensideCastle);
                                assert forall|i: int| mid.len() <= i < moves_of(*v).len() implies
                                    #[trigger] self.safe_or_special(moves_of(*v)[i]) by {
                                    assert(moves_of(*v)[i].move_kind() == MoveType::QueensideCastle);
                                }
                                if self.calm(pininfo) {
                                    self.lemma_adds_safe_trans(start, mid, moves_of(*v));
                                }
                                self.lemma_extends_trans(start, mid, moves_of(*v));
                            self.lemma_extends_trans(after_captures, mid, moves_of(*v));
                            self.lemma_extends_trans(after_pawns, mid, moves_of(*v));
                            self.lemma_extends_trans(after_dests, mid, moves_of(*v));
                            self.lemma_extends_trans(after_kingside, mid, moves_of(*v));
                            assert(self.castle_open_queenside());
                            assert(self.adds_lawful_castling(mid, moves_of(*v)));
                            }
                        }
                    }
                }
            }
        }
        proof {
            let fin = moves_of(*v);
            let k = self.king_at(self.turn());
            if self.castle_open_kingside() && fin.len() < 256 {
                crate::board::position::legality::lemma_lists_extend(
                    after_kingside,
                    fin,
                    k,
                    step(step(k, Direction::East).unwrap(), Direction::East).unwrap(),
                    MoveType::KingsideCastle,
                );
            }
            assert(self.lists_castling(fin));
            assert(self.adds_lawful_castling(after_kingside, fin));
            self.lemma_lawful_castling_segments(start, after_captures, after_dests, after_kingside, fin);
            if self.ep_ready() && fin.len() < 256 {
                assert forall|m: Move|
                    #[trigger] self.generated(m) && m.move_kind() == MoveType::EnPassant && self.keeps_king_safe(m)
                        implies lists(fin, m.from_idx(), m.dest_idx(), m.move_kind()) by {
                    crate::board::position::legality::lemma_lists_extend(
                        after_captures,
                        fin,
                        m.from_idx(),
                        m.dest_idx(),
                        m.move_kind(),
                    );
                }
            }
            if self.ep_conditions() {
                assert forall|i: int| start.len() <= i < fin.len() && (#[trigger] fin[i]).move_kind()
                    == MoveType::EnPassant implies self.keeps_king_safe(fin[i]) by {
                    if i < after_captures.len() {
                        assert(fin[i] == fin.subrange(0, after_captures.len() as int)[i]);
                    } else if i < after_dests.len() {
                        assert(fin[i] == fin.subrange(0, after_dests.len() as int)[i]);
                    }
                }
            }
            assert(self.adds_lawful_castling(start, fin));
        }
        proof {
            if !self.checked() && moves_of(*v).len() < 256 {
                assert forall|m: Move|
                    #[trigger] self.sound_move(m) && !m.move_kind().captures() implies lists(
                    moves_of(*v),
                    m.from_idx(),
                    m.dest_idx(),
                    m.move_kind(),
                ) by {
                    Move::lemma_fields_range(m);
                    if self.at(m.from_idx()).unwrap().0 == Piece::Pawn {
                        let c = self.rep().slot_at(m.from_idx()).unwrap();
                        assert(pawns.has(c));
                        crate::board::position::legality::lemma_lists_extend(
                            after_pawns,
                            moves_of(*v),
                            m.from_idx(),
                            m.dest_idx(),
                            m.move_kind(),
                        );
                    } else {
                        crate::board::position::legality::lemma_lists_extend(
                            after_dests,
                            moves_of(*v),
                            m.from_idx(),
                            m.dest_idx(),
                            m.move_kind(),
                        );
                    }
                }
                assert forall|m: Move|
                    #[trigger] self.sound_move(m) && m.move_kind().captures() && self.at(m.dest_idx()).unwrap().0
                        != Piece::King implies lists(moves_of(*v), m.from_idx(), m.dest_idx(), m.move_kind()) by {
                    crate::board::position::legality::lemma_lists_extend(
                        after_captures,
                        moves_of(*v),
                        m.from_idx(),
                        m.dest_idx(),
                        m.move_kind(),
                    );
                }
            }
        }
        proof {
            let fin = moves_of(*v);
            if fin.len() < 256 && !self.checked() {
                assert forall|m: Move|
                    #[trigger] self.sound_move(m) && !(self.at(m.dest_idx()) matches Some(pc) && pc.0 == Piece::King)
                        implies lists(fin, m.from_idx(), m.dest_idx(), m.move_kind()) by {
                    if m.move_kind().captures() {
                        assert(self.lists_captures(fin));
                    } else {
                        assert(self.lists_quiet(fin));
                    }
                }
            }
        }
    }
    /// Generate the moves for the quiescence search: the captures, or, when in check, the
    /// captures among the moves out of check.
    pub fn generate_quiesce(&self, v: &mut ArrayVec<[Move; 256]>)
        requires
            self.rep().has_king(self.turn()),
        ensures
            self.extends(moves_of(*old(v)), moves_of(*final(v))),
            Self::adds_captures(moves_of(*old(v)), moves_of(*final(v))),
            !self.checked() ==> self.adds_safe(moves_of(*old(v)), moves_of(*final(v))),
            self.at_most_two_checkers() ==> self.adds_safe(moves_of(*old(v)), moves_of(*final(v))),
            !self.checked() ==> self.lists_captures(moves_of(*final(v))),
            !self.checked() ==> self.captures_in_order(moves_of(*old(v)), moves_of(*final(v))),
            no_repeats(moves_of(*old(v)), moves_of(*final(v))),
            !self.checked() && self.ep_ready() ==> self.lists_ep(moves_of(*final(v))),
            !self.checked() && self.ep_conditions() ==> self.ep_moves_safe(moves_of(*old(v)), moves_of(*final(v))),
            self.checked() && self.at_most_two_checkers() && moves_of(*final(v)).len() < 256 ==> forall|m: Move|
                #[trigger] self.sound_move(m) && m.move_kind().captures() ==> lists(
                    moves_of(*final(v)),
                    m.from_idx(),
                    m.dest_idx(),
                    m.move_kind(),
                ),
    {
        proof {
            use_type_invariant(self);
            self.lemma_extends_refl(moves_of(*v));
        }
        let ghost start = moves_of(*v);
        let king_square = self.data.king_square(self.side);
        let checks = self.data.attacks_to(king_square, self.side.not());
        let check_count = checks.count_ones();
        proof {
            self.lemma_checker_count(king_square, checks);
        }
        if check_count != 0 {
            proof {
                self.lemma_checkers(king_square, checks);
            }
            let mut v2 = new_list();
            if check_count == 1 {
                self.generate_single_check(&mut v2);
            } else if check_count == 2 {
                self.generate_double_check(&mut v2);
            }
            let ghost evasions = moves_of(v2);
            let ghost cond = self.at_most_two_checkers();
            proof {
                assert(evasions.subrange(0, 0) == Seq::<Move>::empty());
                assert(evasions.len() < 256);
                assert(cond ==> self.lists_moves(evasions));
            }
            let n = list_len(&v2);
            let mut i: usize = 0;
            while i < n
                invariant
                    moves_of(v2) == evasions,
                    n == evasions.len(),
                    self.extends(Seq::empty(), evasions),
                    start == moves_of(*old(v)),
                    self.extends(start, moves_of(*v)),
                    Self::adds_captures(start, moves_of(*v)),
                    cond == self.at_most_two_checkers(),
                    cond ==> self.adds_safe(Seq::empty(), evasions),
                    cond ==> self.adds_safe(start, moves_of(*v)),
                    no_repeats(Seq::empty(), evasions),
                    no_repeats(start, moves_of(*v)),
                    forall|j: int|
                        start.len() <= j < moves_of(*v).len() ==> exists|x: int|
                            0 <= x < i && #[trigger] moves_of(*v)[j] == evasions[x],
                    i <= n,
                    cond ==> self.lists_moves(evasions),
                    evasions.len() < 256,
                    moves_of(*v).len() < 256 ==> forall|x: int|
                        0 <= x < i && (#[trigger] evasions[x]).move_kind().captures() ==> lists(
                            moves_of(*v),
                            evasions[x].from_idx(),
                            evasions[x].dest_idx(),
                            evasions[x].move_kind(),
                        ),
                decreases n - i,
            {
                let m = list_get(&v2, i);
                proof {
                    assert(self.generated(evasions[i as int]));
                }
                if m.is_capture() {
                    let ghost before = moves_of(*v);
                    try_push(v, m);
                    proof {
                        assert(moves_of(*v).subrange(0, before.len() as int) == before);
                        assert forall|j: int| start.len() <= j < before.len() implies (#[trigger] before[j]) != m by {
                            let x = choose|x: int| 0 <= x < i && #[trigger] before[j] == evasions[x];
                        }
                        lemma_no_repeats_one(before, moves_of(*v));
                        lemma_no_repeats_join(start, before, moves_of(*v), |mm: Move| mm != m);
                        assert forall|j: int| start.len() <= j < moves_of(*v).len() implies exists|x: int|
                            0 <= x < i + 1 && #[trigger] moves_of(*v)[j] == evasions[x] by {
                            if j < before.len() {
                                assert(moves_of(*v)[j] == before[j]);
                                let x = choose|x: int| 0 <= x < i && #[trigger] before[j] == evasions[x];
                                assert(moves_of(*v)[j] == evasions[x]);
                            } else {
                                assert(moves_of(*v)[j] == evasions[i as int]);
                            }
                        }
                        self.lemma_extends_trans(start, before, moves_of(*v));
                        if cond {
                            assert(self.safe_or_special(evasions[i as int]));
                            assert forall|j: int| before.len() <= j < moves_of(*v).len() implies
                                #[trigger] self.safe_or_special(moves_of(*v)[j]) by {
                                assert(moves_of(*v)[j] == m);
                            }
                            self.lemma_adds_safe_trans(start, before, moves_of(*v));
                        }
                        if moves_of(*v).len() < 256 {
                            assert forall|x: int|
                                0 <= x < i + 1 && (#[trigger] evasions[x]).move_kind().captures() implies lists(
                                moves_of(*v),
                                evasions[x].from_idx(),
                                evasions[x].dest_idx(),
                                evasions[x].move_kind(),
                            ) by {
                                if x < i {
                                    crate::board::position::legality::lemma_lists_extend(
                                        before,
                                        moves_of(*v),
                                        evasions[x].from_idx(),
                                        evasions[x].dest_idx(),
                                        evasions[x].move_kind(),
                                    );
                                } else {
                                    assert(moves_of(*v)[before.len() as int] == evasions[x]);
                                }
                            }
                        }
                    }
                }
                i += 1;
            }
            proof {
                if self.checked() && cond && moves_of(*v).len() < 256 {
                    assert forall|m: Move| #[trigger] self.sound_move(m) && m.move_kind().captures() implies lists(
                        moves_of(*v),
                        m.from_idx(),
                        m.dest_idx(),
                        m.move_kind(),
                    ) by {
                        assert(lists(evasions, m.from_idx(), m.dest_idx(), m.move_kind()));
                        let j = choose|j: int|
                            0 <= j < evasions.len() && (#[trigger] evasions[j]).from_idx() == m.from_idx()
                                && evasions[j].dest_idx() == m.dest_idx() && evasions[j].move_kind()
                                == m.move_kind();
                        assert(evasions[j].move_kind().captures());
                    }
                }
            }
            return;
        }
        self.generate_captures(v);
    }
}

} // verus!
