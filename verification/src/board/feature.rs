//! Input-feature indices of the evaluation network: piece-square features and threat
//! features, both seen from one side's king.
use vstd::prelude::*;

use crate::board::attacks::{abs, attacks};
use crate::colour::Colour;
use crate::piece::Piece;
use crate::square::{Square, sq_file, sq_rank};

verus! {

broadcast use Square::lemma_index_range;

/// True if a piece of type `piece` on square number `from` attacks `to` on an otherwise empty
/// board (never for pawns, whose threats are indexed apart).
pub open spec fn reaches(piece: Piece, from: int, to: int) -> bool {
    let dr = abs(sq_rank(to) - sq_rank(from));
    let df = abs(sq_file(to) - sq_file(from));
    &&& 0 <= from < 64
    &&& 0 <= to < 64
    &&& match piece {
        Piece::Pawn => false,
        Piece::Knight => (dr == 1 && df == 2) || (dr == 2 && df == 1),
        Piece::Bishop => dr == df && dr > 0,
        Piece::Rook => (dr == 0) != (df == 0),
        Piece::Queen => (dr == df && dr > 0) || ((dr == 0) != (df == 0)),
        Piece::King => dr <= 1 && df <= 1 && dr + df > 0,
    }
}

/// The number of squares below `n` that a piece of type `piece` on `from` reaches.
pub open spec fn reach_below(piece: Piece, from: int, n: int) -> nat
    decreases n,
{
    if n <= 0 {
        0
    } else {
        reach_below(piece, from, n - 1) + if reaches(piece, from, n - 1) {
            1nat
        } else {
            0nat
        }
    }
}

/// The number of (origin, target) pairs of a piece type with the origin below `n`.
pub open spec fn index_below(piece: Piece, n: int) -> nat
    decreases n,
{
    if n <= 0 {
        0
    } else {
        index_below(piece, n - 1) + reach_below(piece, n - 1, 64)
    }
}

/// Empty-board reach agrees with the board's attack relation when no square is occupied.
pub proof fn lemma_reaches_attacks(piece: Piece, from: int, to: int)
    requires
        piece != Piece::Pawn,
        0 <= from < 64,
        0 <= to < 64,
    ensures
        reaches(piece, from, to) == attacks(piece, Colour::White, from, to, |s: int| false),
{
}

/// The square seen from a king: mirrored left to right when the king stands on files e-h.
pub open spec fn oriented(sq: int, king: int) -> int {
    if sq_file(king) >= 4 {
        8 * sq_rank(sq) + 7 - sq_file(sq)
    } else {
        sq
    }
}

proof fn lemma_xor_seven(x: usize)
    by (bit_vector)
    requires
        x < 64,
    ensures
        x ^ 7 == 8 * (x / 8) + 7 - x % 8,
        x ^ 0 == x,
{
}

/// The horizontal mirroring for a king on `king`: 7 (flip the files) when it stands on files
/// e-h, else 0.
pub fn mirror(king: Square) -> (r: usize)
    ensures
        r == if sq_file(king.index()) >= 4 {
            7usize
        } else {
            0usize
        },
{
    if king.into_inner() % 8 >= 4 {
        7
    } else {
        0
    }
}

/// The number of a square seen from a king.
fn oriented_square(square: Square, king: Square) -> (r: usize)
    ensures
        r == oriented(square.index(), king.index()),
        r < 64,
{
    let sq = square.into_inner() as usize;
    proof {
        lemma_xor_seven(sq);
    }
    sq ^ mirror(king)
}

/// The piece-square feature of a piece of type `piece` on `square`, seen from the king on
/// `king`: 64 features per piece type, the six friendly types first.
pub fn index_pst(piece: Piece, square: Square, king: Square, friendly: bool) -> (r: usize)
    ensures
        r == 64 * ((if friendly {
            0int
        } else {
            6int
        }) + piece.ord()) + oriented(square.index(), king.index()),
        r < 768,
{
    let square = oriented_square(square, king);
    let side: usize = if friendly {
        0
    } else {
        1
    };
    64 * (side * 6 + piece.ordinal() as usize) + square
}

/// The number of (origin, target) pairs of a piece type.
pub open spec fn total(piece: Piece) -> int {
    index_below(piece, 64) as int
}

/// Where the threat features of a piece type start: each type has one block for threats on
/// friendly pieces and one for threats on enemy pieces, 84 features each for pawns and as many
/// as its (origin, target) pairs for the others, in the order pawn, knight, bishop, rook,
/// queen, king.
pub open spec fn threat_offset(piece: Piece) -> int {
    let knight: int = 168int;
    let bishop = knight + 2 * total(Piece::Knight);
    let rook = bishop + 2 * total(Piece::Bishop);
    let queen = rook + 2 * total(Piece::Rook);
    let king = queen + 2 * total(Piece::Queen);
    match piece {
        Piece::Pawn => 0,
        Piece::Knight => knight,
        Piece::Bishop => bishop,
        Piece::Rook => rook,
        Piece::Queen => queen,
        Piece::King => king,
    }
}

/// The number of threat features seen from one side.
pub open spec fn max_offset() -> int {
    threat_offset(Piece::King) + 2 * total(Piece::King)
}

/// The feature of a pawn on `from` threatening `to`, within the pawn blocks: 14 per rank
/// from the second to the seventh, two per file (the left capture first).
pub open spec fn pawn_threat(from: int, to: int, attacking_enemy: bool) -> int {
    (if attacking_enemy {
        84int
    } else {
        0int
    }) + 14 * (sq_rank(from) - 1) + 2 * sq_file(from) - if sq_file(to) < sq_file(from) {
        1int
    } else {
        0int
    }
}

/// The feature of a piece of type `piece` on `from` threatening `to`, within the threat
/// features of one side.
pub open spec fn threat_index(piece: Piece, from: int, to: int, attacking_enemy: bool) -> int {
    if piece == Piece::Pawn {
        pawn_threat(from, to, attacking_enemy)
    } else {
        threat_offset(piece) + (if attacking_enemy {
            total(piece)
        } else {
            0
        }) + index_below(piece, from) + reach_below(piece, from, to)
    }
}

/// True if `from` and `to` are a pawn threat: `from` on the second to seventh rank and `to`
/// one rank and one file away.
pub open spec fn pawn_threat_squares(from: int, to: int) -> bool {
    &&& 1 <= sq_rank(from) <= 6
    &&& abs(sq_rank(to) - sq_rank(from)) == 1
    &&& abs(sq_file(to) - sq_file(from)) == 1
}

/// Whether a piece of type `piece` on `from` attacks `to` on an empty board.
fn reaches_exec(piece: Piece, from: usize, to: usize) -> (r: bool)
    requires
        from < 64,
        to < 64,
    ensures
        r == reaches(piece, from as int, to as int),
{
    let (fr, ff, tr, tf) = (from / 8, from % 8, to / 8, to % 8);
    let dr = if tr > fr {
        tr - fr
    } else {
        fr - tr
    };
    let df = if tf > ff {
        tf - ff
    } else {
        ff - tf
    };
    match piece {
        Piece::Pawn => false,
        Piece::Knight => (dr == 1 && df == 2) || (dr == 2 && df == 1),
        Piece::Bishop => dr == df && dr > 0,
        Piece::Rook => (dr == 0) != (df == 0),
        Piece::Queen => (dr == df && dr > 0) || ((dr == 0) != (df == 0)),
        Piece::King => dr <= 1 && df <= 1 && dr + df > 0,
    }
}

/// The number of squares below `n` that a piece of type `piece` on `from` reaches.
fn reach_count(piece: Piece, from: usize, n: usize) -> (r: usize)
    requires
        from < 64,
        n <= 64,
    ensures
        r == reach_below(piece, from as int, n as int),
        r <= n,
{
    let mut count: usize = 0;
    let mut t: usize = 0;
    while t < n
        invariant
            from < 64,
            t <= n <= 64,
            count == reach_below(piece, from as int, t as int),
            count <= t,
        decreases n - t,
    {
        if reaches_exec(piece, from, t) {
            count = count + 1;
        }
        t = t + 1;
    }
    count
}

/// The number of (origin, target) pairs of a piece type with the origin below `n`.
fn index_count(piece: Piece, n: usize) -> (r: usize)
    requires
        n <= 64,
    ensures
        r == index_below(piece, n as int),
        r <= 64 * n,
{
    let mut count: usize = 0;
    let mut s: usize = 0;
    while s < n
        invariant
            s <= n <= 64,
            count == index_below(piece, s as int),
            count <= 64 * s,
        decreases n - s,
    {
        count = count + reach_count(piece, s, 64);
        s = s + 1;
    }
    count
}

/// Where the threat features of a piece type start.
fn offset_of(piece: Piece) -> (r: usize)
    ensures
        r == threat_offset(piece),
        r <= 168 + 8 * 4096,
{
    let knight: usize = 2 * 84;
    if piece == Piece::Knight {
        return knight;
    }
    let bishop = knight + 2 * index_count(Piece::Knight, 64);
    if piece == Piece::Bishop {
        return bishop;
    }
    let rook = bishop + 2 * index_count(Piece::Bishop, 64);
    if piece == Piece::Rook {
        return rook;
    }
    let queen = rook + 2 * index_count(Piece::Rook, 64);
    if piece == Piece::Queen {
        return queen;
    }
    let king = queen + 2 * index_count(Piece::Queen, 64);
    if piece == Piece::King {
        return king;
    }
    0
}

/// The number of threat features seen from one side.
fn offset_max() -> (r: usize)
    ensures
        r == max_offset(),
        r <= 168 + 10 * 4096,
{
    offset_of(Piece::King) + 2 * index_count(Piece::King, 64)
}

/// The feature of a pawn threat, within the pawn blocks.
fn pawn_threat_exec(from_square: usize, to_square: usize, attacking_enemy: bool) -> (r: usize)
    requires
        from_square < 64,
        to_square < 64,
        pawn_threat_squares(from_square as int, to_square as int),
    ensures
        r == pawn_threat(from_square as int, to_square as int, attacking_enemy),
        r < 2 * 84,
{
    let up = to_square > from_square;
    let diff = if up {
        to_square - from_square
    } else {
        from_square - to_square
    };
    let id: usize = if diff != (if up {
        7
    } else {
        9
    }) {
        1
    } else {
        0
    };
    let attack = 2 * (from_square % 8) + id - 1;
    let enemy: usize = if attacking_enemy {
        1
    } else {
        0
    };
    enemy * 84 + (from_square / 8 - 1) * 14 + attack
}

/// Mirroring both squares keeps what reaches what.
proof fn lemma_oriented_reach(piece: Piece, a: int, b: int, king: int)
    requires
        0 <= a < 64,
        0 <= b < 64,
    ensures
        reaches(piece, oriented(a, king), oriented(b, king)) == reaches(piece, a, b),
        pawn_threat_squares(oriented(a, king), oriented(b, king)) == pawn_threat_squares(a, b),
        0 <= oriented(a, king) < 64,
{
}

/// Counting reached squares below a reached square counts fewer than all of them.
proof fn lemma_below_reached(piece: Piece, from: int, to: int)
    requires
        0 <= to < 64,
        reaches(piece, from, to),
    ensures
        reach_below(piece, from, to) < reach_below(piece, from, 64),
{
    lemma_reach_monotone(piece, from, to + 1, 64);
}

proof fn lemma_reach_monotone(piece: Piece, from: int, n: int, m: int)
    requires
        0 <= n <= m,
    ensures
        reach_below(piece, from, n) <= reach_below(piece, from, m),
    decreases m - n,
{
    if n < m {
        lemma_reach_monotone(piece, from, n, m - 1);
    }
}

proof fn lemma_index_monotone(piece: Piece, n: int, m: int)
    requires
        0 <= n <= m,
    ensures
        index_below(piece, n) <= index_below(piece, m),
    decreases m - n,
{
    if n < m {
        lemma_index_monotone(piece, n, m - 1);
    }
}

/// The threat feature of a piece of type `piece` on `from_square` threatening `to_square`,
/// seen from the king on `king`: after the 768 piece-square features, the threats by friendly
/// pieces and then those by enemy pieces, each laid out by `threat_index`.
pub fn index_threat(
    piece: Piece,
    from_square: Square,
    to_square: Square,
    king: Square,
    friendly: bool,
    attacking_enemy: bool,
) -> (r: usize)
    requires
        piece == Piece::Pawn ==> pawn_threat_squares(from_square.index(), to_square.index()),
        piece != Piece::Pawn ==> reaches(piece, from_square.index(), to_square.index()),
    ensures
        r == 768 + (if friendly {
            0
        } else {
            max_offset()
        }) + threat_index(
            piece,
            oriented(from_square.index(), king.index()),
            oriented(to_square.index(), king.index()),
            attacking_enemy,
        ),
{
    let from = oriented_square(from_square, king);
    let to = oriented_square(to_square, king);
    proof {
        lemma_oriented_reach(piece, from_square.index(), to_square.index(), king.index());
    }
    let idx = if piece == Piece::Pawn {
        pawn_threat_exec(from, to, attacking_enemy)
    } else {
        let below = reach_count(piece, from, to);
        let offset = offset_of(piece);
        let pairs = index_count(piece, 64);
        let enemy = if attacking_enemy {
            pairs
        } else {
            0
        };
        let idx = offset + enemy + index_count(piece, from) + below;
        proof {
            lemma_below_reached(piece, from as int, to as int);
            lemma_index_monotone(piece, from + 1, 64);
            assert(idx < threat_offset(piece) + 2 * total(piece));
        }
        idx
    };
    let side = if friendly {
        0
    } else {
        offset_max()
    };
    768 + side + idx
}

} // verus!
