//! Pinned pieces.
use vstd::prelude::*;

use crate::board::bitlist::{Bitlist, popcount};
use crate::board::index::{PieceIndex, colour_of_index};
use crate::board::position::Board;
use crate::board::attacks::{dist, is_queen_dir, lemma_direction_ray, lemma_ray_injective, lemma_ray_step, ray_on, ray_sq};
use crate::colour::Colour;
use crate::piece::Piece;
use crate::square::{Direction, Square, Square16x8, direction_between};

verus! {

broadcast use {Square::lemma_index_range, PieceIndex::lemma_index_range, crate::board::data::BoardData::lemma_sq_of_range};

/// Pin information in a board.
pub struct PinInfo {
    /// For each piece slot, the direction of the line it is pinned along, if any.
    pub pins: [Option<Direction>; 32],
    /// The pawns that may not take en passant, because taking would expose their king along a
    /// rank.
    pub enpassant_pinned: Bitlist,
}

impl Default for PinInfo {
    /// No pins.
    fn default() -> (r: PinInfo)
        ensures
            forall|i: int| 0 <= i < 32 ==> #[trigger] r.pins@[i] is None,
            r.enpassant_pinned@ == 0,
    {
        PinInfo { pins: [None; 32], enpassant_pinned: Bitlist::new() }
    }
}

/// The number of steps `j`, `1 <= j <= n`, along `dir` from square `ps` whose square holds a
/// piece of `colour`.
pub open spec fn seg_count(board: Board, ps: int, dir: Direction, n: int, colour: Colour) -> nat
    decreases n,
{
    if n <= 0 {
        0
    } else {
        seg_count(board, ps, dir, n - 1, colour) + if board.at(ray_sq(ps, dir, n)) matches Some(pc)
            && pc.1 == colour {
            1nat
        } else {
            0nat
        }
    }
}

/// The line from the enemy slider in slot `p` to the king of the side to move, when the
/// slider moves along it: the slider's square, the direction towards the king and the
/// distance.
pub open spec fn pin_line(board: Board, p: int) -> Option<(int, Direction, int)> {
    let d = board.rep();
    let k = board.king_at(board.turn());
    let ps = d.sq_of(p);
    if 0 <= p < 32 && d.live(p) && colour_of_index(p) == board.turn().other() && d.kind(
        p,
    ).unwrap().is_slider() {
        match direction_between(ps, k) {
            Some(dir) => if dir.slides(d.kind(p).unwrap()) {
                Some((ps, dir, dist(ps, k)))
            } else {
                None
            },
            None => None,
        }
    } else {
        None
    }
}

/// True if slot `i` stands on the line from the slider in slot `p` to the king, strictly
/// between them.
pub open spec fn on_line(board: Board, p: int, i: int) -> bool {
    let (ps, dir, n) = pin_line(board, p).unwrap();
    exists|j: int| 1 <= j < n && #[trigger] ray_sq(ps, dir, j) == board.rep().sq_of(i)
}

/// True if slot `i` of the side to move is pinned to its king by the enemy slider in slot
/// `p`: it is the only piece between them, on a line the slider moves along.
pub open spec fn pins_slot(board: Board, p: int, i: int) -> bool {
    match pin_line(board, p) {
        Some((ps, dir, n)) => {
            &&& seg_count(board, ps, dir, n - 1, board.turn()) == 1
            &&& seg_count(board, ps, dir, n - 1, board.turn().other()) == 0
            &&& 0 <= i < 32
            &&& board.rep().live(i)
            &&& colour_of_index(i) == board.turn()
            &&& on_line(board, p, i)
        },
        None => false,
    }
}

/// True if pawn slot `i` of the side to move may not take en passant because of the enemy
/// slider in slot `p`: along a rank, the only pieces between the slider and the king are that
/// pawn and one enemy pawn.
pub open spec fn ep_pins_slot(board: Board, p: int, i: int) -> bool {
    match pin_line(board, p) {
        Some((ps, dir, n)) => {
            &&& (dir == Direction::East || dir == Direction::West)
            &&& seg_count(board, ps, dir, n - 1, board.turn()) == 1
            &&& seg_count(board, ps, dir, n - 1, board.turn().other()) == 1
            &&& 0 <= i < 32
            &&& board.rep().live(i)
            &&& colour_of_index(i) == board.turn()
            &&& board.rep().kind(i) == Some(Piece::Pawn)
            &&& on_line(board, p, i)
            &&& exists|j: int|
                1 <= j < n && #[trigger] board.at(ray_sq(ps, dir, j)) == Some(
                    (Piece::Pawn, board.turn().other()),
                )
        },
        None => false,
    }
}

/// Counting along a line never goes down.
proof fn lemma_seg_monotone(board: Board, ps: int, dir: Direction, n: int, m: int, c: Colour)
    requires
        n <= m,
    ensures
        seg_count(board, ps, dir, n, c) <= seg_count(board, ps, dir, m, c),
    decreases m - n,
{
    if n < m {
        lemma_seg_monotone(board, ps, dir, n, m - 1, c);
    }
}

/// Two different steps holding pieces of `c` make the count at least two.
pub proof fn lemma_seg_two(board: Board, ps: int, dir: Direction, n: int, c: Colour, a: int, b: int)
    requires
        1 <= a < b <= n,
        board.at(ray_sq(ps, dir, a)) matches Some(pc) && pc.1 == c,
        board.at(ray_sq(ps, dir, b)) matches Some(pc) && pc.1 == c,
    ensures
        seg_count(board, ps, dir, n, c) >= 2,
    decreases n,
{
    if b < n {
        lemma_seg_two(board, ps, dir, n - 1, c, a, b);
    } else {
        lemma_seg_monotone(board, ps, dir, a - 1, b - 1, c);
        assert(seg_count(board, ps, dir, a, c) >= 1);
        lemma_seg_monotone(board, ps, dir, a, b - 1, c);
    }
}

/// A step holding a piece of `c` counts.
pub proof fn lemma_seg_one(board: Board, ps: int, dir: Direction, n: int, c: Colour, a: int)
    requires
        1 <= a <= n,
        board.at(ray_sq(ps, dir, a)) matches Some(pc) && pc.1 == c,
    ensures
        seg_count(board, ps, dir, n, c) >= 1,
{
    lemma_seg_monotone(board, ps, dir, a, n, c);
}

/// The counts along a line on which only step `j0` is occupied, by a piece of `c`.
proof fn lemma_seg_sole(board: Board, ps: int, dir: Direction, m: int, j0: int, c: Colour)
    requires
        1 <= j0,
        board.at(ray_sq(ps, dir, j0)) matches Some(pc) && pc.1 == c,
        forall|j: int| 1 <= j <= m && j != j0 ==> (#[trigger] board.at(ray_sq(ps, dir, j))) is None,
    ensures
        seg_count(board, ps, dir, m, c) == if m >= j0 { 1nat } else { 0nat },
        seg_count(board, ps, dir, m, c.other()) == 0,
    decreases m,
{
    if m > 0 {
        lemma_seg_sole(board, ps, dir, m - 1, j0, c);
    }
}

/// A piece of the side to move that is the only piece between an enemy slider and the king,
/// on a line the slider moves along, is pinned by it.
pub proof fn lemma_sole_blocker_pinned(board: Board, p: int, i: int, j0: int)
    requires
        pin_line(board, p) is Some,
        ({
            let (ps, dir, n) = pin_line(board, p).unwrap();
            &&& 1 <= j0 < n
            &&& ray_sq(ps, dir, j0) == board.rep().sq_of(i)
            &&& forall|j: int|
                1 <= j < n && j != j0 ==> (#[trigger] board.at(ray_sq(ps, dir, j))) is None
        }),
        0 <= i < 32,
        board.rep().consistent(),
        board.rep().live(i),
        colour_of_index(i) == board.turn(),
    ensures
        pins_slot(board, p, i),
{
    let (ps, dir, n) = pin_line(board, p).unwrap();
    let d = board.rep();
    assert(d.slot_at(d.sq_of(i)) == Some(i));
    assert(board.at(ray_sq(ps, dir, j0)) == Some((d.kind(i).unwrap(), colour_of_index(i))));
    lemma_seg_sole(board, ps, dir, n - 1, j0, board.turn());
    assert(on_line(board, p, i));
}

/// Counting along a line with one piece of `c` at `j0`, one of the other colour at `j1`, and
/// nothing else.
proof fn lemma_seg_pair(board: Board, ps: int, dir: Direction, m: int, j0: int, j1: int, c: Colour)
    requires
        1 <= j0,
        1 <= j1,
        j0 != j1,
        board.at(ray_sq(ps, dir, j0)) matches Some(pc) && pc.1 == c,
        board.at(ray_sq(ps, dir, j1)) matches Some(pc) && pc.1 == c.other(),
        forall|j: int| 1 <= j <= m && j != j0 && j != j1 ==> (#[trigger] board.at(ray_sq(ps, dir, j))) is None,
    ensures
        seg_count(board, ps, dir, m, c) == if m >= j0 { 1nat } else { 0nat },
        seg_count(board, ps, dir, m, c.other()) == if m >= j1 { 1nat } else { 0nat },
    decreases m,
{
    if m > 0 {
        lemma_seg_pair(board, ps, dir, m - 1, j0, j1, c);
    }
}

/// A pawn of the side to move and an enemy pawn that are the only pieces between an enemy
/// slider and the king, along a rank, make the pawn one that may not take en passant.
pub proof fn lemma_pair_ep_pinned(board: Board, p: int, i: int, j0: int, j1: int)
    requires
        pin_line(board, p) is Some,
        ({
            let (ps, dir, n) = pin_line(board, p).unwrap();
            &&& dir == Direction::East || dir == Direction::West
            &&& 1 <= j0 < n
            &&& 1 <= j1 < n
            &&& j0 != j1
            &&& ray_sq(ps, dir, j0) == board.rep().sq_of(i)
            &&& board.at(ray_sq(ps, dir, j1)) == Some((Piece::Pawn, board.turn().other()))
            &&& forall|j: int|
                1 <= j < n && j != j0 && j != j1 ==> (#[trigger] board.at(ray_sq(ps, dir, j))) is None
        }),
        0 <= i < 32,
        board.rep().consistent(),
        board.rep().live(i),
        colour_of_index(i) == board.turn(),
        board.rep().kind(i) == Some(Piece::Pawn),
    ensures
        ep_pins_slot(board, p, i),
{
    let (ps, dir, n) = pin_line(board, p).unwrap();
    let d = board.rep();
    assert(d.slot_at(d.sq_of(i)) == Some(i));
    assert(board.at(ray_sq(ps, dir, j0)) == Some((d.kind(i).unwrap(), colour_of_index(i))));
    lemma_seg_pair(board, ps, dir, n - 1, j0, j1, board.turn());
    assert(on_line(board, p, i));
    assert(board.at(ray_sq(ps, dir, j1)) == Some((Piece::Pawn, board.turn().other())));
}

/// A pinned piece stands on the line from its pinner to the king, so the pin direction is the
/// direction from the piece to the king.
pub proof fn lemma_pin_direction(board: Board, p: int, i: int)
    requires
        pins_slot(board, p, i),
        board.rep().wf(),
    ensures
        direction_between(board.rep().sq_of(i), board.king_at(board.turn())) == Some(
            pin_line(board, p).unwrap().1,
        ),
{
    let (ps, dir, n) = pin_line(board, p).unwrap();
    let k = board.king_at(board.turn());
    let j = choose|j: int| 1 <= j < n && #[trigger] ray_sq(ps, dir, j) == board.rep().sq_of(i);
    lemma_direction_ray(ps, k);
    crate::board::attacks::lemma_ray_shift(ps, dir, j, n - j);
    crate::board::attacks::lemma_ray_shift(ps, dir, j, 0);
    assert(ray_on(ps, dir, j));
    crate::board::attacks::lemma_ray_geometry(ray_sq(ps, dir, j), dir, n - j);
}

/// What the line from one enemy slider to the king contributes: the slot it pins, if any,
/// and the pawn slot it stops from taking en passant, if any.
pub open spec fn scan_result(board: Board, pi: int, r: (Option<PieceIndex>, Option<PieceIndex>)) -> bool {
    &&& forall|i: int| #[trigger]
        pins_slot(board, pi, i) <==> (r.0 matches Some(b) && r.1 is None && i == b.index())
    &&& r.0 matches Some(b) ==> 0 <= b.index() < 32 && board.rep().live(b.index())
    &&& r.1 matches Some(e) ==> 0 <= e.index() < 32 && board.rep().live(e.index())
    &&& forall|i: int| #[trigger]
        ep_pins_slot(board, pi, i) <==> (r.0 matches Some(f) && r.1 matches Some(e) && i == f.index()
            && board.rep().kind(f.index()) == Some(Piece::Pawn) && board.rep().kind(e.index()) == Some(
            Piece::Pawn,
        ) && (pin_line(board, pi).unwrap().1 == Direction::East || pin_line(board, pi).unwrap().1
            == Direction::West))
}

impl PinInfo {
    /// Walk the line from the enemy slider in slot `possible_pinner` towards the king on
    /// `king_square`: the one friendly piece on it, when there is exactly one, and the one
    /// enemy piece on it, when there is exactly one beside at most one friendly piece.
    fn scan_line(board: &Board, king_square: Square, possible_pinner: PieceIndex) -> (r: (
        Option<PieceIndex>,
        Option<PieceIndex>,
        Direction,
    ))
        requires
            board.rep().wf(),
            king_square.index() == board.king_at(board.turn()),
            board.rep().live(possible_pinner.index()),
            colour_of_index(possible_pinner.index()) == board.turn().other(),
            board.rep().kind(possible_pinner.index()).unwrap().is_slider(),
        ensures
            scan_result(*board, possible_pinner.index(), (r.0, r.1)),
            r.0 is Some ==> pin_line(*board, possible_pinner.index()) is Some && pin_line(
                *board,
                possible_pinner.index(),
            ).unwrap().1 == r.2,
    {
        let data = board.data();
        let side = board.side();
        let ghost pi = possible_pinner.index();
        let king16 = Square16x8::from_square(king_square);
        let pinner_square = data.square_of_piece(possible_pinner);
        let pinner16 = Square16x8::from_square(pinner_square);
        let pinner_type = data.piece_from_bit(possible_pinner);
        let pinner_king_dir = match pinner16.direction(king16) {
            Some(d) => d,
            None => {
                proof {
                    assert(pin_line(*board, pi) is None);
                }
                return (None, None, Direction::North);
            },
        };
        if !pinner_king_dir.valid_for_slider(pinner_type) {
            proof {
                assert(pin_line(*board, pi) is None);
            }
            return (None, None, Direction::North);
        }
        let ghost p = pinner_square.index();
        let ghost k = king_square.index();
        let ghost n_king = dist(p, k);
        proof {
            lemma_direction_ray(p, k);
            assert(pin_line(*board, pi) == Some((p, pinner_king_dir, n_king)));
        }
        let mut friendly_blocker: Option<PieceIndex> = None;
        let mut enemy_blocker: Option<PieceIndex> = None;
        let mut ray = pinner16.ray_attacks(pinner_king_dir);
        let ghost mut n: int = 0;
        let ghost mut stopped: bool = false;
        loop
            invariant_except_break
                ray.position() == ray_sq(p, pinner_king_dir, n),
                !stopped,
            invariant
                data.wf(),
                *data == board.rep(),
                side == board.turn(),
                0 <= p < 64,
                0 <= k < 64,
                direction_between(p, k) == Some(pinner_king_dir),
                is_queen_dir(pinner_king_dir),
                n_king == dist(p, k),
                n_king >= 1,
                ray_sq(p, pinner_king_dir, n_king) == k,
                forall|j: int| 0 <= j <= n_king ==> #[trigger] ray_on(p, pinner_king_dir, j),
                ray.direction() == pinner_king_dir,
                king_square.index() == k,
                0 <= n < n_king,
                stopped ==> friendly_blocker is None && enemy_blocker is None && (seg_count(
                    *board,
                    p,
                    pinner_king_dir,
                    n_king - 1,
                    side,
                ) >= 2 || seg_count(*board, p, pinner_king_dir, n_king - 1, side.other()) >= 2),
                !stopped ==> seg_count(*board, p, pinner_king_dir, n, side) <= 1 && seg_count(
                    *board,
                    p,
                    pinner_king_dir,
                    n,
                    side.other(),
                ) <= 1 && (friendly_blocker is Some <==> seg_count(*board, p, pinner_king_dir, n, side)
                    == 1) && (enemy_blocker is Some <==> seg_count(
                    *board,
                    p,
                    pinner_king_dir,
                    n,
                    side.other(),
                ) == 1),
                friendly_blocker matches Some(b) ==> 0 <= b.index() < 32 && data.live(b.index())
                    && colour_of_index(b.index()) == side && exists|j: int|
                    1 <= j <= n && #[trigger] ray_sq(p, pinner_king_dir, j) == data.sq_of(b.index()),
                enemy_blocker matches Some(b) ==> 0 <= b.index() < 32 && data.live(b.index())
                    && colour_of_index(b.index()) == side.other() && exists|j: int|
                    1 <= j <= n && #[trigger] ray_sq(p, pinner_king_dir, j) == data.sq_of(b.index()),
            ensures
                !stopped ==> n == n_king - 1,
            decreases n_king - n,
        {
            proof {
                lemma_ray_step(p, pinner_king_dir, n);
            }
            let square = match ray.next() {
                None => {
                    break;
                },
                Some(sq) => sq,
            };
            if square.into_inner() == king_square.into_inner() {
                proof {
                    if n + 1 != n_king {
                        lemma_ray_injective(p, pinner_king_dir, n + 1, n_king);
                    }
                }
                break;
            }
            proof {
                n = n + 1;
                if n == n_king {
                    assert(square.index() == k);
                }
                assert(square.index() == ray_sq(p, pinner_king_dir, n));
            }
            if let Some(piece_index) = data.piece_index(square) {
                proof {
                    assert(data.live(piece_index.index()));
                    assert(data.sq_of(piece_index.index()) == square.index());
                }
                if data.colour_from_square(square) == Some(side.not()) {
                    match enemy_blocker {
                        Some(eb) => {
                            proof {
                                let j0 = choose|j: int|
                                    1 <= j <= n - 1 && #[trigger] ray_sq(p, pinner_king_dir, j)
                                        == data.sq_of(eb.index());
                                assert(data.slot_at(data.sq_of(eb.index())) == Some(eb.index()));
                                lemma_seg_two(*board, p, pinner_king_dir, n, side.other(), j0, n);
                                lemma_seg_monotone(*board, p, pinner_king_dir, n, n_king - 1, side.other());
                                stopped = true;
                            }
                            friendly_blocker = None;
                            enemy_blocker = None;
                            break;
                        },
                        None => {
                            enemy_blocker = Some(piece_index);
                        },
                    }
                } else {
                    match friendly_blocker {
                        Some(fb) => {
                            proof {
                                let j0 = choose|j: int|
                                    1 <= j <= n - 1 && #[trigger] ray_sq(p, pinner_king_dir, j)
                                        == data.sq_of(fb.index());
                                assert(data.slot_at(data.sq_of(fb.index())) == Some(fb.index()));
                                lemma_seg_two(*board, p, pinner_king_dir, n, side, j0, n);
                                lemma_seg_monotone(*board, p, pinner_king_dir, n, n_king - 1, side);
                                stopped = true;
                            }
                            friendly_blocker = None;
                            enemy_blocker = None;
                            break;
                        },
                        None => {
                            friendly_blocker = Some(piece_index);
                        },
                    }
                }
            }
        }
        proof {
            Self::lemma_scan_outcome(
                *board,
                pi,
                p,
                pinner_king_dir,
                n_king,
                friendly_blocker,
                enemy_blocker,
                stopped,
            );
        }
        (friendly_blocker, enemy_blocker, pinner_king_dir)
    }

    /// What a finished walk along a pin line tells about the slots it pins.
    proof fn lemma_scan_outcome(
        board: Board,
        pi: int,
        p: int,
        dir: Direction,
        n_king: int,
        friendly: Option<PieceIndex>,
        enemy: Option<PieceIndex>,
        stopped: bool,
    )
        requires
            board.rep().wf(),
            pin_line(board, pi) == Some((p, dir, n_king)),
            0 <= p < 64,
            is_queen_dir(dir),
            n_king >= 1,
            forall|j: int| 0 <= j <= n_king ==> #[trigger] ray_on(p, dir, j),
            stopped ==> friendly is None && enemy is None && (seg_count(board, p, dir, n_king - 1, board.turn())
                >= 2 || seg_count(board, p, dir, n_king - 1, board.turn().other()) >= 2),
            !stopped ==> seg_count(board, p, dir, n_king - 1, board.turn()) <= 1 && seg_count(
                board,
                p,
                dir,
                n_king - 1,
                board.turn().other(),
            ) <= 1 && (friendly is Some <==> seg_count(board, p, dir, n_king - 1, board.turn()) == 1) && (
            enemy is Some <==> seg_count(board, p, dir, n_king - 1, board.turn().other()) == 1),
            friendly matches Some(b) ==> 0 <= b.index() < 32 && board.rep().live(b.index())
                && colour_of_index(b.index()) == board.turn() && exists|j: int|
                1 <= j <= n_king - 1 && #[trigger] ray_sq(p, dir, j) == board.rep().sq_of(b.index()),
            enemy matches Some(b) ==> 0 <= b.index() < 32 && board.rep().live(b.index())
                && colour_of_index(b.index()) == board.turn().other() && exists|j: int|
                1 <= j <= n_king - 1 && #[trigger] ray_sq(p, dir, j) == board.rep().sq_of(b.index()),
        ensures
            scan_result(board, pi, (friendly, enemy)),
    {
        let d = board.rep();
        let side = board.turn();
        assert forall|i: int| #[trigger]
            pins_slot(board, pi, i) <==> (friendly matches Some(b) && enemy is None && i == b.index()) by {
            if pins_slot(board, pi, i) {
                let b = friendly.unwrap();
                let ji = choose|j: int| 1 <= j < n_king && #[trigger] ray_sq(p, dir, j) == d.sq_of(i);
                let jb = choose|j: int| 1 <= j <= n_king - 1 && #[trigger] ray_sq(p, dir, j) == d.sq_of(b.index());
                assert(d.slot_at(d.sq_of(i)) == Some(i));
                assert(d.slot_at(d.sq_of(b.index())) == Some(b.index()));
                if ji != jb {
                    if ji < jb {
                        lemma_seg_two(board, p, dir, n_king - 1, side, ji, jb);
                    } else {
                        lemma_seg_two(board, p, dir, n_king - 1, side, jb, ji);
                    }
                }
            }
            if friendly is Some && enemy is None && i == friendly.unwrap().index() {
                let b = friendly.unwrap();
                let jb = choose|j: int| 1 <= j <= n_king - 1 && #[trigger] ray_sq(p, dir, j) == d.sq_of(b.index());
                assert(on_line(board, pi, i));
            }
        }
        assert forall|i: int| #[trigger]
            ep_pins_slot(board, pi, i) <==> (friendly matches Some(f) && enemy matches Some(e) && i == f.index()
                && d.kind(f.index()) == Some(Piece::Pawn) && d.kind(e.index()) == Some(Piece::Pawn) && (dir
                == Direction::East || dir == Direction::West)) by {
            if ep_pins_slot(board, pi, i) {
                let f = friendly.unwrap();
                let e = enemy.unwrap();
                let ji = choose|j: int| 1 <= j < n_king && #[trigger] ray_sq(p, dir, j) == d.sq_of(i);
                let jf = choose|j: int| 1 <= j <= n_king - 1 && #[trigger] ray_sq(p, dir, j) == d.sq_of(f.index());
                let je = choose|j: int| 1 <= j <= n_king - 1 && #[trigger] ray_sq(p, dir, j) == d.sq_of(e.index());
                let jp = choose|j: int|
                    1 <= j < n_king && #[trigger] board.at(ray_sq(p, dir, j)) == Some((Piece::Pawn, side.other()));
                assert(d.slot_at(d.sq_of(i)) == Some(i));
                assert(d.slot_at(d.sq_of(f.index())) == Some(f.index()));
                assert(d.slot_at(d.sq_of(e.index())) == Some(e.index()));
                if ji != jf {
                    if ji < jf {
                        lemma_seg_two(board, p, dir, n_king - 1, side, ji, jf);
                    } else {
                        lemma_seg_two(board, p, dir, n_king - 1, side, jf, ji);
                    }
                }
                if jp != je {
                    if jp < je {
                        lemma_seg_two(board, p, dir, n_king - 1, side.other(), jp, je);
                    } else {
                        lemma_seg_two(board, p, dir, n_king - 1, side.other(), je, jp);
                    }
                }
            }
            if friendly is Some && enemy is Some && i == friendly.unwrap().index() && d.kind(
                friendly.unwrap().index(),
            ) == Some(Piece::Pawn) && d.kind(enemy.unwrap().index()) == Some(Piece::Pawn) && (dir
                == Direction::East || dir == Direction::West) {
                let f = friendly.unwrap();
                let e = enemy.unwrap();
                let jf = choose|j: int| 1 <= j <= n_king - 1 && #[trigger] ray_sq(p, dir, j) == d.sq_of(f.index());
                let je = choose|j: int| 1 <= j <= n_king - 1 && #[trigger] ray_sq(p, dir, j) == d.sq_of(e.index());
                assert(on_line(board, pi, i));
                assert(d.slot_at(d.sq_of(e.index())) == Some(e.index()));
                assert(board.at(ray_sq(p, dir, je)) == Some((Piece::Pawn, side.other())));
            }
        }
    }

    /// One more slider processed: the pins and en-passant pins found so far gain what its
    /// line contributes.
    proof fn lemma_step(
        board: Board,
        pi: int,
        candidates: Bitlist,
        before: Bitlist,
        after: Bitlist,
        old_pins: Seq<Option<Direction>>,
        new_pins: Seq<Option<Direction>>,
        old_ep: Bitlist,
        new_ep: Bitlist,
    )
        requires
            candidates.has(pi),
            before.has(pi),
            forall|q: int| #[trigger] after.has(q) <==> (before.has(q) && q != pi),
            forall|i: int|
                0 <= i < 32 ==> (#[trigger] old_pins[i] is Some <==> exists|p: int|
                    candidates.has(p) && !before.has(p) && pins_slot(board, p, i)),
            forall|i: int|
                0 <= i < 32 && #[trigger] old_pins[i] is Some ==> exists|p: int|
                    candidates.has(p) && !before.has(p) && pins_slot(board, p, i) && pin_line(
                        board,
                        p,
                    ).unwrap().1 == old_pins[i].unwrap(),
            forall|i: int|
                #[trigger] old_ep.has(i) <==> exists|p: int|
                    candidates.has(p) && !before.has(p) && ep_pins_slot(board, p, i),
            forall|i: int|
                0 <= i < 32 ==> (#[trigger] new_pins[i] is Some <==> (old_pins[i] is Some || pins_slot(
                    board,
                    pi,
                    i,
                ))),
            forall|i: int|
                0 <= i < 32 && #[trigger] new_pins[i] is Some ==> (new_pins[i] == old_pins[i] || (
                pins_slot(board, pi, i) && new_pins[i].unwrap() == pin_line(board, pi).unwrap().1)),
            forall|i: int| #[trigger] new_ep.has(i) <==> (old_ep.has(i) || ep_pins_slot(board, pi, i)),
        ensures
            forall|i: int|
                0 <= i < 32 ==> (#[trigger] new_pins[i] is Some <==> exists|p: int|
                    candidates.has(p) && !after.has(p) && pins_slot(board, p, i)),
            forall|i: int|
                0 <= i < 32 && #[trigger] new_pins[i] is Some ==> exists|p: int|
                    candidates.has(p) && !after.has(p) && pins_slot(board, p, i) && pin_line(
                        board,
                        p,
                    ).unwrap().1 == new_pins[i].unwrap(),
            forall|i: int|
                #[trigger] new_ep.has(i) <==> exists|p: int|
                    candidates.has(p) && !after.has(p) && ep_pins_slot(board, p, i),
    {
        assert forall|i: int| 0 <= i < 32 implies (#[trigger] new_pins[i] is Some <==> exists|p: int|
            candidates.has(p) && !after.has(p) && pins_slot(board, p, i)) by {
            if new_pins[i] is Some {
                if old_pins[i] is Some {
                    let p = choose|p: int| candidates.has(p) && !before.has(p) && pins_slot(board, p, i);
                    assert(!after.has(p));
                } else {
                    assert(pins_slot(board, pi, i) && !after.has(pi));
                }
            }
            if exists|p: int| candidates.has(p) && !after.has(p) && pins_slot(board, p, i) {
                let p = choose|p: int| candidates.has(p) && !after.has(p) && pins_slot(board, p, i);
                if p != pi {
                    assert(!before.has(p));
                }
            }
        }
        assert forall|i: int| 0 <= i < 32 && #[trigger] new_pins[i] is Some implies exists|p: int|
            candidates.has(p) && !after.has(p) && pins_slot(board, p, i) && pin_line(board, p).unwrap().1
                == new_pins[i].unwrap() by {
            if new_pins[i] == old_pins[i] {
                let p = choose|p: int|
                    candidates.has(p) && !before.has(p) && pins_slot(board, p, i) && pin_line(
                        board,
                        p,
                    ).unwrap().1 == old_pins[i].unwrap();
                assert(!after.has(p));
            } else {
                assert(!after.has(pi));
            }
        }
        assert forall|i: int| #[trigger] new_ep.has(i) <==> exists|p: int|
            candidates.has(p) && !after.has(p) && ep_pins_slot(board, p, i) by {
            if new_ep.has(i) {
                if old_ep.has(i) {
                    let p = choose|p: int| candidates.has(p) && !before.has(p) && ep_pins_slot(board, p, i);
                    assert(!after.has(p));
                } else {
                    assert(!after.has(pi));
                }
            }
            if exists|p: int| candidates.has(p) && !after.has(p) && ep_pins_slot(board, p, i) {
                let p = choose|p: int| candidates.has(p) && !after.has(p) && ep_pins_slot(board, p, i);
                if p != pi {
                    assert(!before.has(p));
                }
            }
        }
    }

    /// Once every slider is processed, the pins found are all the pins.
    proof fn lemma_all_processed(
        board: Board,
        candidates: Bitlist,
        rest: Bitlist,
        pins: Seq<Option<Direction>>,
        ep: Bitlist,
    )
        requires
            forall|i: int| !rest.has(i),
            forall|i: int|
                #[trigger] candidates.has(i) <==> (0 <= i < 32 && board.rep().live(i) && colour_of_index(i)
                    == board.turn().other() && board.rep().kind(i).unwrap().is_slider()),
            forall|i: int|
                0 <= i < 32 ==> (#[trigger] pins[i] is Some <==> exists|p: int|
                    candidates.has(p) && !rest.has(p) && pins_slot(board, p, i)),
            forall|i: int|
                0 <= i < 32 && #[trigger] pins[i] is Some ==> exists|p: int|
                    candidates.has(p) && !rest.has(p) && pins_slot(board, p, i) && pin_line(board, p).unwrap().1
                        == pins[i].unwrap(),
            forall|i: int|
                #[trigger] ep.has(i) <==> exists|p: int|
                    candidates.has(p) && !rest.has(p) && ep_pins_slot(board, p, i),
        ensures
            forall|i: int| 0 <= i < 32 ==> (#[trigger] pins[i] is Some <==> exists|p: int| pins_slot(board, p, i)),
            forall|i: int|
                0 <= i < 32 && #[trigger] pins[i] is Some ==> exists|p: int|
                    pins_slot(board, p, i) && pin_line(board, p).unwrap().1 == pins[i].unwrap(),
            forall|i: int| #[trigger] ep.has(i) <==> exists|p: int| ep_pins_slot(board, p, i),
    {
        assert forall|i: int| 0 <= i < 32 implies (#[trigger] pins[i] is Some <==> exists|p: int|
            pins_slot(board, p, i)) by {
            if exists|p: int| pins_slot(board, p, i) {
                let p = choose|p: int| pins_slot(board, p, i);
                assert(candidates.has(p));
            }
        }
        assert forall|i: int| #[trigger] ep.has(i) <==> exists|p: int| ep_pins_slot(board, p, i) by {
            if exists|p: int| ep_pins_slot(board, p, i) {
                let p = choose|p: int| ep_pins_slot(board, p, i);
                assert(candidates.has(p));
            }
        }
    }

    /// Find the pieces of the side to move that are pinned to their king by an enemy slider,
    /// with the direction from the slider to the king, and the pawns that may not take en
    /// passant because the two pawns leaving a rank would expose the king.
    pub fn discover(board: &Board) -> (r: PinInfo)
        requires
            board.rep().has_king(board.turn()),
        ensures
            forall|i: int|
                0 <= i < 32 ==> (#[trigger] r.pins@[i] is Some <==> exists|p: int|
                    pins_slot(*board, p, i)),
            forall|i: int|
                0 <= i < 32 && #[trigger] r.pins@[i] is Some ==> exists|p: int|
                    pins_slot(*board, p, i) && pin_line(*board, p).unwrap().1 == r.pins@[i].unwrap(),
            forall|i: int|
                #[trigger] r.enpassant_pinned.has(i) <==> exists|p: int| ep_pins_slot(*board, p, i),
    {
        let mut info = PinInfo::default();
        let data = board.data();
        let side = board.side();
        let pm = data.piecemask();
        let sliders = pm.bishops().or(pm.rooks()).or(pm.queens());
        let king_square = data.king_square(side);
        let candidates = pm.pieces_of_colour(side.not()).and(sliders);
        let mut it = candidates.into_iter();
        proof {
            Bitlist::lemma_empty(info.enpassant_pinned);
        }
        loop
            invariant
                data.wf(),
                *data == board.rep(),
                side == board.turn(),
                king_square.index() == board.king_at(side),
                forall|i: int| #[trigger] it.rest().has(i) ==> candidates.has(i),
                forall|i: int|
                    #[trigger] candidates.has(i) <==> (0 <= i < 32 && data.live(i) && colour_of_index(i)
                        == side.other() && data.kind(i).unwrap().is_slider()),
                forall|i: int|
                    0 <= i < 32 ==> (#[trigger] info.pins@[i] is Some <==> exists|p: int|
                        candidates.has(p) && !it.rest().has(p) && pins_slot(*board, p, i)),
                forall|i: int|
                    0 <= i < 32 && #[trigger] info.pins@[i] is Some ==> exists|p: int|
                        candidates.has(p) && !it.rest().has(p) && pins_slot(*board, p, i)
                            && pin_line(*board, p).unwrap().1 == info.pins@[i].unwrap(),
                forall|i: int|
                    #[trigger] info.enpassant_pinned.has(i) <==> exists|p: int|
                        candidates.has(p) && !it.rest().has(p) && ep_pins_slot(*board, p, i),
            ensures
                forall|i: int|
                    0 <= i < 32 ==> (#[trigger] info.pins@[i] is Some <==> exists|p: int|
                        pins_slot(*board, p, i)),
                forall|i: int|
                    0 <= i < 32 && #[trigger] info.pins@[i] is Some ==> exists|p: int|
                        pins_slot(*board, p, i) && pin_line(*board, p).unwrap().1 == info.pins@[i].unwrap(),
                forall|i: int|
                    #[trigger] info.enpassant_pinned.has(i) <==> exists|p: int| ep_pins_slot(*board, p, i),
            decreases popcount(it.rest()@),
        {
            let ghost before = it.rest();
            let ghost old_pins = info.pins@;
            let ghost old_ep = info.enpassant_pinned;
            let possible_pinner = match it.next() {
                None => {
                    proof {
                        Bitlist::lemma_empty(it.rest());
                        Self::lemma_all_processed(*board, candidates, it.rest(), info.pins@, info.enpassant_pinned);
                    }
                    break;
                },
                Some(p) => p,
            };
            let ghost pi = possible_pinner.index();
            proof {
                assert(candidates.has(pi));
            }
            let (friendly, enemy, dir) = Self::scan_line(board, king_square, possible_pinner);
            match (friendly, enemy) {
                (Some(blocker), None) => {
                    info.pins[blocker.into_inner() as usize] = Some(dir);
                },
                (Some(f), Some(e)) => {
                    let both_pawns = data.piece_from_bit(f) == Piece::Pawn
                        && data.piece_from_bit(e) == Piece::Pawn;
                    let along_rank = dir == Direction::East || dir == Direction::West;
                    if both_pawns && along_rank {
                        info.enpassant_pinned = info.enpassant_pinned.or(Bitlist::from_piece(f));
                    }
                },
                _ => {},
            }
            proof {
                Self::lemma_step(
                    *board,
                    pi,
                    candidates,
                    before,
                    it.rest(),
                    old_pins,
                    info.pins@,
                    old_ep,
                    info.enpassant_pinned,
                );
            }
        }
        info
    }
}

} // verus!
