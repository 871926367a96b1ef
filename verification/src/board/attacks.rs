use vstd::prelude::*;

use crate::colour::Colour;
use crate::piece::Piece;
use crate::square::{
    Direction, direction_between, knight_dir, king_dir, on_board, sq_at, sq_file, sq_rank, step,
};

verus! {

/// `n` scaled by the sign of `k`.
pub open spec fn scale(n: int, k: int) -> int {
    if k > 0 {
        n
    } else if k < 0 {
        -n
    } else {
        0
    }
}

/// The absolute value of `x`.
pub open spec fn abs(x: int) -> int {
    if x < 0 {
        -x
    } else {
        x
    }
}

/// The square number `n` steps from `from` along the queen direction `d`.
pub open spec fn ray_sq(from: int, d: Direction, n: int) -> int {
    sq_at(sq_rank(from) + scale(n, d.dr()), sq_file(from) + scale(n, d.df()))
}

/// True if the square `n` steps from `from` along `d` lies on the board.
pub open spec fn ray_on(from: int, d: Direction, n: int) -> bool {
    on_board(sq_rank(from) + scale(n, d.dr()), sq_file(from) + scale(n, d.df()))
}

/// The king-move distance between two square numbers.
pub open spec fn dist(a: int, b: int) -> int {
    let dr = abs(sq_rank(b) - sq_rank(a));
    let df = abs(sq_file(b) - sq_file(a));
    if dr > df {
        dr
    } else {
        df
    }
}

/// True if every square strictly between `from` and `to` along `d` is empty.
pub open spec fn clear_ray(from: int, d: Direction, n: int, occupied: spec_fn(int) -> bool) -> bool {
    forall|j: int| 1 <= j < n ==> !occupied(#[trigger] ray_sq(from, d, j))
}

/// True if a slider of type `piece` on `from` attacks `to`, with `occupied` telling which
/// squares hold pieces.
pub open spec fn slider_attacks(
    piece: Piece,
    from: int,
    to: int,
    occupied: spec_fn(int) -> bool,
) -> bool {
    match direction_between(from, to) {
        Some(d) => d.slides(piece) && clear_ray(from, d, dist(from, to), occupied),
        None => false,
    }
}

/// True if a pawn of `colour` on `from` attacks `to`.
pub open spec fn pawn_attacks(colour: Colour, from: int, to: int) -> bool {
    let dr = sq_rank(to) - sq_rank(from);
    let df = sq_file(to) - sq_file(from);
    abs(df) == 1 && match colour {
        Colour::White => dr == 1,
        Colour::Black => dr == -1,
    }
}

/// True if a knight on `from` attacks `to`.
pub open spec fn knight_attacks(from: int, to: int) -> bool {
    let dr = abs(sq_rank(to) - sq_rank(from));
    let df = abs(sq_file(to) - sq_file(from));
    (dr == 1 && df == 2) || (dr == 2 && df == 1)
}

/// True if a king on `from` attacks `to`.
pub open spec fn king_attacks(from: int, to: int) -> bool {
    let dr = abs(sq_rank(to) - sq_rank(from));
    let df = abs(sq_file(to) - sq_file(from));
    dr <= 1 && df <= 1 && !(dr == 0 && df == 0)
}

/// True if a piece of type `piece` and colour `colour` on square `from` attacks square `to`.
pub open spec fn attacks(
    piece: Piece,
    colour: Colour,
    from: int,
    to: int,
    occupied: spec_fn(int) -> bool,
) -> bool {
    0 <= from < 64 && 0 <= to < 64 && match piece {
        Piece::Pawn => pawn_attacks(colour, from, to),
        Piece::Knight => knight_attacks(from, to),
        Piece::King => king_attacks(from, to),
        _ => slider_attacks(piece, from, to, occupied),
    }
}

/// A step in a direction reaches the square with the direction's offsets.
pub proof fn lemma_step(sq: int, d: Direction, to: int)
    requires
        0 <= sq < 64,
        0 <= to < 64,
    ensures
        step(sq, d) == Some(to) <==> (sq_rank(to) - sq_rank(sq) == d.dr() && sq_file(to)
            - sq_file(sq) == d.df()),
        step(sq, d) matches Some(t) ==> 0 <= t < 64,
{
}

/// Knight attacks are the knight jumps that stay on the board.
pub proof fn lemma_knight_dirs(from: int, to: int)
    requires
        0 <= from < 64,
        0 <= to < 64,
    ensures
        knight_attacks(from, to) <==> exists|k: int| 0 <= k < 8 && step(from, knight_dir(k)) == Some(to),
{
    if knight_attacks(from, to) {
        let dr = sq_rank(to) - sq_rank(from);
        let df = sq_file(to) - sq_file(from);
        let k = if dr == 2 && df == 1 {
            0int
        } else if dr == 1 && df == 2 {
            1
        } else if dr == -1 && df == 2 {
            2
        } else if dr == -2 && df == 1 {
            3
        } else if dr == -2 && df == -1 {
            4
        } else if dr == -1 && df == -2 {
            5
        } else if dr == 1 && df == -2 {
            6
        } else {
            7
        };
        assert(step(from, knight_dir(k)) == Some(to));
    }
}

/// King attacks are the king steps that stay on the board.
pub proof fn lemma_king_dirs(from: int, to: int)
    requires
        0 <= from < 64,
        0 <= to < 64,
    ensures
        king_attacks(from, to) <==> exists|k: int| 0 <= k < 8 && step(from, king_dir(k)) == Some(to),
{
    if king_attacks(from, to) {
        let dr = sq_rank(to) - sq_rank(from);
        let df = sq_file(to) - sq_file(from);
        let k = if dr == 1 && df == 0 {
            0int
        } else if dr == 1 && df == 1 {
            1
        } else if dr == 0 && df == 1 {
            2
        } else if dr == -1 && df == 1 {
            3
        } else if dr == -1 && df == 0 {
            4
        } else if dr == -1 && df == -1 {
            5
        } else if dr == 0 && df == -1 {
            6
        } else {
            7
        };
        assert(step(from, king_dir(k)) == Some(to));
    }
}

/// The queen directions are the eight king directions.
pub open spec fn is_queen_dir(d: Direction) -> bool {
    d.is_diagonal() || d.is_orthogonal()
}

/// Walking along a queen direction: the square `n + 1` steps away is one step from the square
/// `n` steps away.
pub proof fn lemma_ray_step(from: int, d: Direction, n: int)
    requires
        0 <= from < 64,
        is_queen_dir(d),
        n >= 0,
        ray_on(from, d, n),
    ensures
        0 <= ray_sq(from, d, n) < 64,
        step(ray_sq(from, d, n), d) is Some <==> ray_on(from, d, n + 1),
        ray_on(from, d, n + 1) ==> step(ray_sq(from, d, n), d) == Some(ray_sq(from, d, n + 1)),
{
}

/// The squares along a ray are distinct, and lie in that ray's direction at that distance.
#[verifier::rlimit(40)]
pub proof fn lemma_ray_geometry(from: int, d: Direction, n: int)
    requires
        0 <= from < 64,
        is_queen_dir(d),
        n >= 1,
        ray_on(from, d, n),
    ensures
        0 <= ray_sq(from, d, n) < 64,
        direction_between(from, ray_sq(from, d, n)) == Some(d),
        dist(from, ray_sq(from, d, n)) == n,
        ray_sq(from, d, n) != from,
{
}

/// A square in a queen direction from `from` is the ray square at its distance.
pub proof fn lemma_direction_ray(from: int, to: int)
    requires
        0 <= from < 64,
        0 <= to < 64,
        direction_between(from, to) is Some,
    ensures
        ({
            let d = direction_between(from, to).unwrap();
            &&& is_queen_dir(d)
            &&& dist(from, to) >= 1
            &&& ray_on(from, d, dist(from, to))
            &&& ray_sq(from, d, dist(from, to)) == to
            &&& forall|j: int| 0 <= j <= dist(from, to) ==> #[trigger] ray_on(from, d, j)
        }),
{
}

/// Distinct distances along one ray give distinct squares.
pub proof fn lemma_ray_injective(from: int, d: Direction, a: int, b: int)
    requires
        0 <= from < 64,
        is_queen_dir(d),
        ray_on(from, d, a),
        ray_on(from, d, b),
        a != b,
    ensures
        ray_sq(from, d, a) != ray_sq(from, d, b),
{
}

/// A square's rank and file are recovered from its number.
pub proof fn lemma_sq_at(r: int, f: int)
    requires
        0 <= f < 8,
    ensures
        sq_rank(sq_at(r, f)) == r,
        sq_file(sq_at(r, f)) == f,
{
}

/// Stepping along a ray from a square on the ray.
#[verifier::rlimit(30)]
pub proof fn lemma_ray_shift(from: int, d: Direction, a: int, b: int)
    requires
        0 <= from < 64,
        is_queen_dir(d),
        a >= 0,
        b >= 0,
        ray_on(from, d, a),
    ensures
        ray_on(ray_sq(from, d, a), d, b) == ray_on(from, d, a + b),
        ray_sq(ray_sq(from, d, a), d, b) == ray_sq(from, d, a + b),
{
    lemma_sq_at(sq_rank(from) + scale(a, d.dr()), sq_file(from) + scale(a, d.df()));
}


/// True if `q` lies strictly between `p` and `t` on a queen line.
pub open spec fn strictly_between(p: int, q: int, t: int) -> bool {
    direction_between(p, q) is Some && direction_between(q, t) == direction_between(p, q)
}

/// When `q` lies strictly between `p` and `t`, the line from `p` to `t` passes through `q`.
pub proof fn lemma_between_geometry(p: int, q: int, t: int)
    requires
        0 <= p < 64,
        0 <= q < 64,
        0 <= t < 64,
        strictly_between(p, q, t),
    ensures
        ({
            let d = direction_between(p, q).unwrap();
            &&& is_queen_dir(d)
            &&& direction_between(p, t) == Some(d)
            &&& dist(p, q) >= 1
            &&& dist(q, t) >= 1
            &&& dist(p, t) == dist(p, q) + dist(q, t)
            &&& ray_on(p, d, dist(p, q))
            &&& ray_sq(p, d, dist(p, q)) == q
        }),
{
}

/// A clear line from `p` through `q` splits into the part before `q`, `q` itself, and the part
/// after `q`.
pub proof fn lemma_clear_through(p: int, d: Direction, n0: int, m: int, occ: spec_fn(int) -> bool)
    requires
        0 <= p < 64,
        is_queen_dir(d),
        n0 >= 1,
        m >= 1,
        ray_on(p, d, n0),
    ensures
        clear_ray(p, d, n0 + m, occ) <==> (clear_ray(p, d, n0, occ) && !occ(ray_sq(p, d, n0))
            && clear_ray(ray_sq(p, d, n0), d, m, occ)),
{
    let q = ray_sq(p, d, n0);
    if clear_ray(p, d, n0 + m, occ) {
        assert(!occ(ray_sq(p, d, n0)));
        assert forall|j: int| 1 <= j < m implies !occ(#[trigger] ray_sq(q, d, j)) by {
            lemma_ray_shift(p, d, n0, j);
            assert(!occ(ray_sq(p, d, n0 + j)));
        }
    }
    if clear_ray(p, d, n0, occ) && !occ(q) && clear_ray(q, d, m, occ) {
        assert forall|j: int| 1 <= j < n0 + m implies !occ(#[trigger] ray_sq(p, d, j)) by {
            if j > n0 {
                lemma_ray_shift(p, d, n0, j - n0);
                assert(!occ(ray_sq(q, d, j - n0)));
            }
        }
    }
}

/// Occupancies that differ only off the line leave it equally clear.
pub proof fn lemma_clear_same(
    p: int,
    d: Direction,
    n: int,
    q: int,
    occ1: spec_fn(int) -> bool,
    occ2: spec_fn(int) -> bool,
)
    requires
        forall|s: int| #![trigger occ1(s)] #![trigger occ2(s)] 0 <= s < 64 && s != q ==> occ1(s) == occ2(s),
        forall|j: int| 1 <= j < n ==> ray_sq(p, d, j) != q && 0 <= #[trigger] ray_sq(p, d, j) < 64,
    ensures
        clear_ray(p, d, n, occ1) == clear_ray(p, d, n, occ2),
{
    if clear_ray(p, d, n, occ1) {
        assert forall|j: int| 1 <= j < n implies !occ2(#[trigger] ray_sq(p, d, j)) by {
            assert(!occ1(ray_sq(p, d, j)));
        }
    }
    if clear_ray(p, d, n, occ2) {
        assert forall|j: int| 1 <= j < n implies !occ1(#[trigger] ray_sq(p, d, j)) by {
            assert(!occ2(ray_sq(p, d, j)));
        }
    }
}

/// How a change of occupancy at `q` affects the attacks of a slider on `p`: squares with `q`
/// strictly in between are attacked exactly when `q` is attacked, empty, and the line from `q`
/// on is clear; all other squares are unaffected.
pub proof fn lemma_slider_through(
    piece: Piece,
    p: int,
    q: int,
    t: int,
    occ1: spec_fn(int) -> bool,
    occ2: spec_fn(int) -> bool,
)
    requires
        0 <= p < 64,
        0 <= q < 64,
        0 <= t < 64,
        forall|s: int| #![trigger occ1(s)] #![trigger occ2(s)] 0 <= s < 64 && s != q ==> occ1(s) == occ2(s),
    ensures
        !strictly_between(p, q, t) ==> slider_attacks(piece, p, t, occ1) == slider_attacks(
            piece,
            p,
            t,
            occ2,
        ),
        strictly_between(p, q, t) ==> {
            let d = direction_between(p, q).unwrap();
            &&& clear_ray(q, d, dist(q, t), occ1) == clear_ray(q, d, dist(q, t), occ2)
            &&& slider_attacks(piece, p, q, occ1) == slider_attacks(piece, p, q, occ2)
            &&& slider_attacks(piece, p, t, occ1) == (slider_attacks(piece, p, q, occ1) && !occ1(q)
                && clear_ray(q, d, dist(q, t), occ1))
            &&& slider_attacks(piece, p, t, occ2) == (slider_attacks(piece, p, q, occ1) && !occ2(q)
                && clear_ray(q, d, dist(q, t), occ1))
        },
{
    if strictly_between(p, q, t) {
        lemma_between_geometry(p, q, t);
        let d = direction_between(p, q).unwrap();
        let n0 = dist(p, q);
        let m = dist(q, t);
        lemma_direction_ray(p, q);
        lemma_direction_ray(q, t);
        lemma_direction_ray(p, t);
        assert forall|j: int| 1 <= j < m implies ray_sq(q, d, j) != q && 0 <= ray_sq(q, d, j) < 64 by {
            lemma_ray_geometry(q, d, j);
        }
        lemma_clear_same(q, d, m, q, occ1, occ2);
        assert forall|j: int| 1 <= j < n0 implies ray_sq(p, d, j) != q && 0 <= ray_sq(p, d, j) < 64 by {
            lemma_ray_injective(p, d, j, n0);
            lemma_ray_geometry(p, d, j);
        }
        lemma_clear_same(p, d, n0, q, occ1, occ2);
        lemma_clear_through(p, d, n0, m, occ1);
        lemma_clear_through(p, d, n0, m, occ2);
    } else {
        match direction_between(p, t) {
            Some(e) => {
                lemma_direction_ray(p, t);
                let n = dist(p, t);
                assert forall|j: int| 1 <= j < n implies ray_sq(p, e, j) != q && 0 <= ray_sq(p, e, j) < 64 by {
                    lemma_ray_geometry(p, e, j);
                    if ray_sq(p, e, j) == q {
                        lemma_ray_geometry(p, e, j);
                        lemma_ray_shift(p, e, j, n - j);
                        lemma_ray_geometry(q, e, n - j);
                    }
                }
                lemma_clear_same(p, e, n, q, occ1, occ2);
            },
            None => {},
        }
    }
}

} // verus!
