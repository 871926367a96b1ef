//! How search scores are shown: mate scores apart from ordinary centipawn scores.
use vstd::prelude::*;

verus! {

/// Scores at least this far from zero are mate scores: 10000 less the distance to mate in
/// plies.
pub const MATE_DISPLAY: i32 = 9500;

/// `n / 2` rounded toward zero.
pub open spec fn half(n: int) -> int {
    if n >= 0 {
        n / 2
    } else {
        -((-n) / 2)
    }
}

/// `n / 2` rounded toward zero.
fn halve(n: i32) -> (r: i32)
    requires
        n > i32::MIN,
    ensures
        r == half(n as int),
{
    if n >= 0 {
        n / 2
    } else {
        -((-n) / 2)
    }
}

/// A score in the xboard protocol: a mate score as 100000 plus half the plies to mate when the
/// side to move mates, -100000 less half the plies when it is mated; any other score as it is.
pub open spec fn xboard_value(score: int) -> int {
    if score >= 9500 {
        100000 + half(10000 - score)
    } else if score <= -9500 {
        -100000 + half(-10000 - score)
    } else {
        score
    }
}

/// The xboard protocol's form of a normalised score.
pub fn xboard_score(score: i32) -> (r: i32)
    ensures
        r == xboard_value(score as int),
{
    if score >= MATE_DISPLAY {
        100000 + halve(10000 - score)
    } else if score <= -MATE_DISPLAY {
        -100000 + halve(-10000 - score)
    } else {
        score
    }
}

/// A score in the UCI protocol.
#[derive(Clone, Copy, PartialEq, Eq, Debug, Structural)]
pub enum UciScore {
    /// A mate score, with the number the protocol shows.
    Mate(i32),
    /// An ordinary score in centipawns.
    Centipawns(i32),
}

/// The UCI protocol's form of a normalised score: `10000 - score` for a mate by the side to
/// move and `score - 10000` for a mate against it.
pub fn uci_score(score: i32) -> (r: UciScore)
    ensures
        r == if score >= 9500 {
            UciScore::Mate((10000 - score) as i32)
        } else if score <= -9500 {
            UciScore::Mate((-10000 + score) as i32)
        } else {
            UciScore::Centipawns(score)
        },
{
    if score >= MATE_DISPLAY {
        UciScore::Mate(10000 - score)
    } else if score <= -MATE_DISPLAY {
        if score < i32::MIN + 10000 {
            UciScore::Mate((-10000 + score as i64) as i32)
        } else {
            UciScore::Mate(-10000 + score)
        }
    } else {
        UciScore::Centipawns(score)
    }
}

/// For a mate score, the number of moves to mate, rounded up, and whether the side to move
/// mates; `None` for any other score.
pub fn mate_in(score: i32) -> (r: Option<(bool, u32)>)
    ensures
        r == if score >= 9500 {
            Some((true, (((10000 - score) as u32 as int + 1) / 2) as u32))
        } else if score <= -9500 {
            Some((false, (((10000 + score) as u32 as int + 1) / 2) as u32))
        } else {
            None::<(bool, u32)>
        },
{
    if score >= MATE_DISPLAY {
        let plies = (10000 - score) as u32;
        Some((true, div_ceil_2(plies)))
    } else if score <= -MATE_DISPLAY {
        let plies = (10000i64 + score as i64) as u32;
        Some((false, div_ceil_2(plies)))
    } else {
        None
    }
}

/// `n / 2` rounded up.
fn div_ceil_2(n: u32) -> (r: u32)
    ensures
        r == (n as int + 1) / 2,
{
    n / 2 + n % 2
}

} // verus!
