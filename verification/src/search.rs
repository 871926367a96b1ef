//! Search helpers: repetition detection and move ordering.
use vstd::prelude::*;

use crate::board::position::Board;
use crate::chessmove::Move;
use crate::colour::Colour;
use crate::piece::Piece;
use std::cmp::Ordering;

verus! {

/// The number of entries of `keys` equal to `hash`.
pub open spec fn occurrences(keys: Seq<u64>, hash: u64) -> nat
    decreases keys.len(),
{
    if keys.len() == 0 {
        0
    } else {
        occurrences(keys.drop_last(), hash) + if keys.last() == hash {
            1nat
        } else {
            0nat
        }
    }
}

/// True if the position with key `hash` has occurred at least twice before, in `keystack`.
pub fn is_repetition_draw(keystack: &[u64], hash: u64) -> (r: bool)
    ensures
        r == (occurrences(keystack@, hash) >= 2),
{
    let mut count: usize = 0;
    let mut i: usize = 0;
    while i < keystack.len()
        invariant
            0 <= i <= keystack@.len(),
            count == occurrences(keystack@.subrange(0, i as int), hash),
            count <= i,
        decreases keystack@.len() - i,
    {
        proof {
            assert(keystack@.subrange(0, i + 1).drop_last() =~= keystack@.subrange(0, i as int));
        }
        if keystack[i] == hash {
            count += 1;
        }
        i += 1;
    }
    proof {
        assert(keystack@.subrange(0, keystack@.len() as int) =~= keystack@);
    }
    count >= 2
}

/// Where a move comes in the search order.
#[derive(PartialEq, Eq, Copy, Clone, Debug)]
pub enum MoveOrder {
    /// The move from the transposition table.
    TtMove,
    /// A capture that does not lose material: the victim, then the capturer.
    GoodCapture(Piece, Piece),
    /// A quiet move, with its history score.
    Quiet(i32),
    /// A capture that loses material: the victim, then the capturer.
    BadCapture(Piece, Piece),
}

/// The rank of a class of moves in the search order.
pub open spec fn class_rank(o: MoveOrder) -> int {
    match o {
        MoveOrder::TtMove => 0,
        MoveOrder::GoodCapture(..) => 1,
        MoveOrder::Quiet(_) => 2,
        MoveOrder::BadCapture(..) => 3,
    }
}

/// How two captures compare: -1 if the first takes the more valuable victim, or the same
/// victim with the less valuable capturer; 1 the other way round; 0 if both pairs agree.
pub open spec fn capture_sign(a_mvv: Piece, a_lva: Piece, b_mvv: Piece, b_lva: Piece) -> int {
    if b_mvv.ord() < a_mvv.ord() {
        -1
    } else if a_mvv.ord() < b_mvv.ord() {
        1
    } else if a_lva.ord() < b_lva.ord() {
        -1
    } else if b_lva.ord() < a_lva.ord() {
        1
    } else {
        0
    }
}

/// How two entries compare in the search order: -1 if `a` comes first, 1 if `b` does, 0 if
/// neither. Classes come in the order of `class_rank`; within a class, captures go by
/// `capture_sign` and quiet moves by higher history score first.
pub open spec fn order_sign(a: MoveOrder, b: MoveOrder) -> int {
    if class_rank(a) < class_rank(b) {
        -1
    } else if class_rank(a) > class_rank(b) {
        1
    } else {
        match (a, b) {
            (MoveOrder::GoodCapture(am, al), MoveOrder::GoodCapture(bm, bl)) => capture_sign(am, al, bm, bl),
            (MoveOrder::BadCapture(am, al), MoveOrder::BadCapture(bm, bl)) => capture_sign(am, al, bm, bl),
            (MoveOrder::Quiet(x), MoveOrder::Quiet(y)) => if y < x {
                -1
            } else if x == y {
                0
            } else {
                1
            },
            _ => 0,
        }
    }
}

/// The search order is a total preorder: swapping the entries flips the comparison, and it is
/// transitive.
pub proof fn lemma_order_total(a: MoveOrder, b: MoveOrder, c: MoveOrder)
    ensures
        order_sign(a, b) == -order_sign(b, a),
        order_sign(a, a) == 0,
        order_sign(a, b) <= 0 && order_sign(b, c) <= 0 ==> order_sign(a, c) <= 0,
        order_sign(a, b) == 0 && order_sign(b, c) == 0 ==> order_sign(a, c) == 0,
{
}

/// The index of the history table for a piece of `piece` moved by `side`.
pub open spec fn history_piece(side: Colour, piece: Piece) -> int {
    6 * (if side == Colour::Black {
        1int
    } else {
        0int
    }) + piece.ord()
}

/// The index of the continuation-history table for a piece of `piece` of `side` arriving on
/// square number `dest`.
pub open spec fn conthist_index(side: Colour, piece: Piece, dest: int) -> int {
    6 * 64 * (if side == Colour::Black {
        1int
    } else {
        0int
    }) + 64 * piece.ord() + dest
}

impl MoveOrder {
    /// The class of move `m` on `board`: the transposition-table move first, then captures
    /// that take a piece at least as valuable as the capturer or win material by exchange, then
    /// quiet moves scored by history, then the other captures.
    pub open spec fn class_of(
        board: Board,
        tt_move: Option<Move>,
        history: [[[i16; 64]; 64]; 12],
        conthist: [[i16; 768]; 768],
        last_last_m: Option<(Piece, Move)>,
        last_m: Option<(Piece, Move)>,
        m: Move,
    ) -> MoveOrder {
        let side = board.turn();
        let from_piece = board.at(m.from_idx()).unwrap().0;
        if tt_move == Some(m) {
            MoveOrder::TtMove
        } else if m.move_kind().captures() {
            let dest_piece = match board.at(m.dest_idx()) {
                Some(pc) => pc.0,
                None => Piece::Pawn,
            };
            if dest_piece.ord() >= from_piece.ord() || board.see(m) >= 0 {
                MoveOrder::GoodCapture(dest_piece, from_piece)
            } else {
                MoveOrder::BadCapture(dest_piece, from_piece)
            }
        } else {
            let base = history@[history_piece(side, from_piece)]@[m.from_idx()]@[m.dest_idx()] as int;
            let curr = conthist_index(side, from_piece, m.dest_idx());
            let a = match last_last_m {
                Some((p, lm)) => conthist@[conthist_index(side, p, lm.dest_idx())]@[curr] as int,
                None => 0,
            };
            let b = match last_m {
                Some((p, lm)) => conthist@[conthist_index(side, p, lm.dest_idx())]@[curr] as int,
                None => 0,
            };
            MoveOrder::Quiet((base + a + b) as i32)
        }
    }

    /// A capture other than the table move that loses no material by exchange, or takes a
    /// piece at least as valuable as the capturer, is a good capture of that victim by that
    /// capturer, ordered before every quiet move; a capture is ordered after the quiet moves
    /// only when it takes a less valuable piece and loses material by exchange.
    pub proof fn law_capture_class(
        board: Board,
        tt_move: Option<Move>,
        history: [[[i16; 64]; 64]; 12],
        conthist: [[i16; 768]; 768],
        last_last_m: Option<(Piece, Move)>,
        last_m: Option<(Piece, Move)>,
        m: Move,
        q: i32,
    )
        requires
            m.move_kind().captures(),
            tt_move != Some(m),
            board.at(m.from_idx()) is Some,
        ensures
            board.see(m) >= 0 ==> Self::class_of(board, tt_move, history, conthist, last_last_m, last_m, m)
                == MoveOrder::GoodCapture(
                match board.at(m.dest_idx()) {
                    Some(pc) => pc.0,
                    None => Piece::Pawn,
                },
                board.at(m.from_idx()).unwrap().0,
            ),
            board.see(m) >= 0 ==> order_sign(
                Self::class_of(board, tt_move, history, conthist, last_last_m, last_m, m),
                MoveOrder::Quiet(q),
            ) == -1,
            order_sign(
                Self::class_of(board, tt_move, history, conthist, last_last_m, last_m, m),
                MoveOrder::Quiet(q),
            ) == 1 ==> board.see(m) < 0 && (match board.at(m.dest_idx()) {
                Some(pc) => pc.0,
                None => Piece::Pawn,
            }).ord() < board.at(m.from_idx()).unwrap().0.ord(),
    {
    }

    /// Classify move `m` on `board` for move ordering.
    pub fn classify(
        board: &Board,
        tt_move: Option<Move>,
        history: &[[[i16; 64]; 64]; 12],
        conthist: &[[i16; 768]; 768],
        last_last_m: Option<(Piece, Move)>,
        last_m: Option<(Piece, Move)>,
        m: Move,
    ) -> (r: MoveOrder)
        requires
            board.at(m.from_idx()) is Some,
        ensures
            r == Self::class_of(*board, tt_move, *history, *conthist, last_last_m, last_m, m),
    {
        if let Some(tt) = tt_move {
            if tt == m {
                return MoveOrder::TtMove;
            }
        }
        let from_piece = match board.piece_from_square(m.from()) {
            Some(p) => p,
            None => Piece::Pawn,
        };
        if m.is_capture() {
            let dest_piece = match board.piece_from_square(m.dest()) {
                Some(p) => p,
                None => Piece::Pawn,
            };
            if !dest_piece.less_than(from_piece) || board.static_exchange_evaluation(m) >= 0 {
                return MoveOrder::GoodCapture(dest_piece, from_piece);
            }
            return MoveOrder::BadCapture(dest_piece, from_piece);
        }
        let black: usize = if board.side() == Colour::Black {
            1
        } else {
            0
        };
        let from = m.from().into_inner() as usize;
        let dest = m.dest().into_inner() as usize;
        let coloured_piece = 6 * black + from_piece.ordinal() as usize;
        let mut score: i32 = history[coloured_piece][from][dest] as i32;
        let curr_index = 6 * 64 * black + 64 * (from_piece.ordinal() as usize) + dest;
        if let Some((last_piece, last)) = last_last_m {
            let last_index = 6 * 64 * black + 64 * (last_piece.ordinal() as usize) + (
            last.dest().into_inner() as usize);
            score = score + conthist[last_index][curr_index] as i32;
        }
        if let Some((last_piece, last)) = last_m {
            let last_index = 6 * 64 * black + 64 * (last_piece.ordinal() as usize) + (
            last.dest().into_inner() as usize);
            score = score + conthist[last_index][curr_index] as i32;
        }
        MoveOrder::Quiet(score)
    }

    /// The search order of two moves: the transposition-table move, then good captures (more
    /// valuable victim first, then less valuable capturer), quiet moves (higher history first)
    /// and bad captures (as good captures).
    pub fn compare(&self, other: &MoveOrder) -> (r: Ordering)
        ensures
            (r == Ordering::Less) == (order_sign(*self, *other) == -1),
            (r == Ordering::Greater) == (order_sign(*self, *other) == 1),
    {
        match (self, other) {
            (MoveOrder::TtMove, MoveOrder::TtMove) => Ordering::Equal,
            (MoveOrder::TtMove, _) => Ordering::Less,
            (_, MoveOrder::TtMove) => Ordering::Greater,
            (MoveOrder::GoodCapture(a_mvv, a_lva), MoveOrder::GoodCapture(b_mvv, b_lva)) => {
                Self::by_victim_then_capturer(*a_mvv, *a_lva, *b_mvv, *b_lva)
            },
            (MoveOrder::GoodCapture(..), _) => Ordering::Less,
            (_, MoveOrder::GoodCapture(..)) => Ordering::Greater,
            (MoveOrder::Quiet(a), MoveOrder::Quiet(b)) => {
                if *b < *a {
                    Ordering::Less
                } else if *b == *a {
                    Ordering::Equal
                } else {
                    Ordering::Greater
                }
            },
            (MoveOrder::Quiet(_), _) => Ordering::Less,
            (_, MoveOrder::Quiet(_)) => Ordering::Greater,
            (MoveOrder::BadCapture(a_mvv, a_lva), MoveOrder::BadCapture(b_mvv, b_lva)) => {
                Self::by_victim_then_capturer(*a_mvv, *a_lva, *b_mvv, *b_lva)
            },
        }
    }

    /// Order captures by more valuable victim first, then by less valuable capturer.
    fn by_victim_then_capturer(a_mvv: Piece, a_lva: Piece, b_mvv: Piece, b_lva: Piece) -> (r: Ordering)
        ensures
            b_mvv.ord() > a_mvv.ord() ==> r == Ordering::Greater,
            b_mvv.ord() < a_mvv.ord() ==> r == Ordering::Less,
            b_mvv == a_mvv && a_lva.ord() < b_lva.ord() ==> r == Ordering::Less,
            b_mvv == a_mvv && a_lva.ord() > b_lva.ord() ==> r == Ordering::Greater,
            b_mvv == a_mvv && a_lva == b_lva ==> r == Ordering::Equal,
    {
        if b_mvv.less_than(a_mvv) {
            Ordering::Less
        } else if a_mvv.less_than(b_mvv) {
            Ordering::Greater
        } else if a_lva.less_than(b_lva) {
            Ordering::Less
        } else if b_lva.less_than(a_lva) {
            Ordering::Greater
        } else {
            Ordering::Equal
        }
    }
}

} // verus!
