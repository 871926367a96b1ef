//! The search's transposition-table entries: which slot of a four-slot bucket a position uses,
//! how mate scores are stored relative to the node, and the history-table update.
use vstd::prelude::*;

use crate::chessmove::Move;

verus! {

/// The score of a mate on the board.
pub const MATE_VALUE: i32 = 10000;

/// Scores at least this far from zero are mate scores, whose distance to mate is counted from
/// the root.
pub const MATE_BOUND: i16 = 9500;

/// The largest magnitude a history entry or bonus takes.
pub const HISTORY_MAX: i32 = 16384;

/// How a stored score bounds the true score.
#[derive(Clone, Copy, PartialEq, Eq, Debug, Structural)]
pub enum TtFlags {
    /// The score is exact.
    Exact,
    /// The true score is at most the stored one.
    Upper,
    /// The true score is at least the stored one.
    Lower,
}

/// One slot of a transposition-table bucket.
#[derive(Clone, Copy)]
pub struct TtData {
    /// The low 16 bits of the position's key.
    pub key: u16,
    /// How the score bounds the true score.
    pub flags: TtFlags,
    /// The depth searched.
    pub depth: u8,
    /// The score, with mate scores counted from the node.
    pub score: i16,
    /// The best move found, if any.
    pub m: Option<Move>,
}

impl Default for TtData {
    /// An empty slot: key 0, an exact score of 0 at depth 0, no move.
    fn default() -> (r: TtData)
        ensures
            r.key == 0,
            r.flags == TtFlags::Exact,
            r.depth == 0,
            r.score == 0,
            r.m is None,
    {
        TtData { key: 0, flags: TtFlags::Exact, depth: 0, score: 0, m: None }
    }
}

/// The bucket of a key in a table of `len` buckets: the key scaled to the table,
/// `hash * len / 2^64`, so that keys spread evenly over the buckets without a division.
pub fn bucket_index(hash: u64, len: usize) -> (r: usize)
    ensures
        r == (hash as int * len as int) / 18446744073709551616int,
        len > 0 ==> r < len,
{
    proof {
        let h = hash as int;
        let l = len as int;
        let two64 = 18446744073709551616int;
        assert(0 <= h * l <= (two64 - 1) * (two64 - 1)) by (nonlinear_arith)
            requires
                0 <= h < two64,
                0 <= l < two64,
        ;
    }
    let wide = (hash as u128) * (len as u128);
    proof {
        let h = hash as int;
        let l = len as int;
        let two64 = 18446744073709551616int;
        assert(0 <= h * l <= (two64 - 1) * l) by (nonlinear_arith)
            requires
                0 <= h < two64,
                0 <= l,
        ;
        assert(h * l / two64 <= l) by (nonlinear_arith)
            requires
                0 <= h * l <= (two64 - 1) * l,
                0 <= l,
                two64 > 0,
        ;
        if len > 0 {
            assert(h * l / two64 < l) by (nonlinear_arith)
                requires
                    0 <= h < two64,
                    0 < l,
                    two64 > 0,
            ;
        }
        assert(wide == h * l);
        assert((wide >> 64u32) == wide / 0x1_0000_0000_0000_0000u128) by (bit_vector);
    }
    (wide >> 64u32) as usize
}

/// The index of the first slot of `slots` whose key is `key`, if any.
pub open spec fn first_match(slots: Seq<TtData>, key: u16, n: int) -> Option<int>
    decreases n,
{
    if n <= 0 {
        None
    } else {
        match first_match(slots, key, n - 1) {
            Some(i) => Some(i),
            None => if slots[n - 1].key == key {
                Some(n - 1)
            } else {
                None
            },
        }
    }
}

/// The index of the first slot among the first `n` of `slots` with the least depth.
pub open spec fn shallowest(slots: Seq<TtData>, n: int) -> int
    decreases n,
{
    if n <= 1 {
        0
    } else {
        let best = shallowest(slots, n - 1);
        if slots[n - 1].depth < slots[best].depth {
            n - 1
        } else {
            best
        }
    }
}

/// The slot a new entry for `key` goes in: the first slot already holding `key`, else the
/// first slot of least depth.
pub fn replacement_slot(slots: &[TtData; 4], key: u16) -> (r: usize)
    ensures
        r == match first_match(slots@, key, 4) {
            Some(i) => i,
            None => shallowest(slots@, 4),
        },
        r < 4,
{
    let mut lowest_depth_entry: usize = 0;
    let mut lowest_depth = slots[0].depth;
    let mut n: usize = 0;
    while n < 4
        invariant
            n <= 4,
            first_match(slots@, key, n as int) is None,
            lowest_depth_entry == shallowest(slots@, if n == 0 { 1 } else { n as int }),
            lowest_depth_entry < 4,
            lowest_depth == slots@[lowest_depth_entry as int].depth,
        decreases 4 - n,
    {
        if slots[n].key == key {
            proof {
                lemma_first_match_stays(slots@, key, n + 1, 4);
            }
            return n;
        }
        if slots[n].depth < lowest_depth {
            lowest_depth = slots[n].depth;
            lowest_depth_entry = n;
        }
        n = n + 1;
    }
    lowest_depth_entry
}

/// A score as stored: mate scores measured from the node `ply` moves below the root rather
/// than from the root.
pub open spec fn stored_score(score: int, ply: int) -> int {
    let raised = if score >= MATE_BOUND {
        score + ply
    } else {
        score
    };
    if raised <= -MATE_BOUND {
        raised - ply
    } else {
        raised
    }
}

/// A stored score as seen at the node `ply` moves below the root.
pub open spec fn loaded_score(score: int, ply: int) -> int {
    let lowered = if score >= MATE_BOUND {
        score - ply
    } else {
        score
    };
    if lowered <= -MATE_BOUND {
        lowered + ply
    } else {
        lowered
    }
}

/// A match found among the first `a` slots is the first match among any more of them.
proof fn lemma_first_match_stays(slots: Seq<TtData>, key: u16, a: int, b: int)
    requires
        0 <= a <= b,
        first_match(slots, key, a) is Some,
    ensures
        first_match(slots, key, b) == first_match(slots, key, a),
    decreases b - a,
{
    if a < b {
        lemma_first_match_stays(slots, key, a, b - 1);
    }
}

/// Store `data`, found `ply` moves below the root, for `key` in a bucket: the score is made
/// relative to the node and the entry goes in `replacement_slot`.
pub fn write_slot(slots: &mut [TtData; 4], key: u16, data: TtData, ply: i16)
    requires
        0 <= ply,
        data.score >= MATE_BOUND ==> data.score + ply <= i16::MAX,
        data.score <= -MATE_BOUND ==> data.score - ply >= i16::MIN,
    ensures
        ({
            let s = replacement_slot_spec(old(slots)@, key);
            &&& final(slots)@ == old(slots)@.update(
                s,
                TtData { score: stored_score(data.score as int, ply as int) as i16, ..data },
            )
        }),
{
    let slot = replacement_slot(slots, key);
    let mut data = data;
    if data.score >= MATE_BOUND {
        data.score = data.score + ply;
    }
    if data.score <= -MATE_BOUND {
        data.score = data.score - ply;
    }
    slots[slot] = data;
}

/// The slot `replacement_slot` picks.
pub open spec fn replacement_slot_spec(slots: Seq<TtData>, key: u16) -> int {
    match first_match(slots, key, 4) {
        Some(i) => i,
        None => shallowest(slots, 4),
    }
}

/// The entry for `key` in a bucket, read `ply` moves below the root: the first slot holding
/// `key`, with its score made relative to the root, or `None`.
pub fn probe_slot(slots: &[TtData; 4], key: u16, ply: i16) -> (r: Option<TtData>)
    requires
        0 <= ply,
    ensures
        r == match first_match(slots@, key, 4) {
            Some(i) => Some(
                TtData {
                    score: loaded_score(slots@[i].score as int, ply as int) as i16,
                    ..slots@[i]
                },
            ),
            None => None::<TtData>,
        },
{
    let mut n: usize = 0;
    while n < 4
        invariant
            n <= 4,
            0 <= ply,
            first_match(slots@, key, n as int) is None,
        decreases 4 - n,
    {
        let mut bucket = slots[n];
        if bucket.key == key {
            proof {
                lemma_first_match_stays(slots@, key, n + 1, 4);
            }
            if bucket.score >= MATE_BOUND {
                bucket.score = bucket.score - ply;
            }
            if bucket.score <= -MATE_BOUND {
                bucket.score = bucket.score + ply;
            }
            return Some(bucket);
        }
        n = n + 1;
    }
    None
}

/// A history entry after a bonus: the bonus, clamped to `HISTORY_MAX` either way, is added
/// less its share of the entry, `entry * |bonus| / HISTORY_MAX` rounded toward zero, so that
/// entries saturate towards the limits.
pub open spec fn history_after(entry: int, bonus: int) -> int {
    let b = if bonus < -HISTORY_MAX {
        -HISTORY_MAX as int
    } else if bonus > HISTORY_MAX {
        HISTORY_MAX as int
    } else {
        bonus
    };
    let magnitude = if b < 0 {
        -b
    } else {
        b
    };
    let product = entry * magnitude;
    let share = if product >= 0 {
        product / (HISTORY_MAX as int)
    } else {
        -((-product) / (HISTORY_MAX as int))
    };
    entry + b - share
}

/// Apply a bonus to a history entry. Entries within `HISTORY_MAX` of zero stay so.
pub fn update_history(entry: &mut i16, bonus: i32)
    requires
        -HISTORY_MAX <= *old(entry) <= HISTORY_MAX,
    ensures
        *final(entry) == history_after(*old(entry) as int, bonus as int),
        -HISTORY_MAX <= *final(entry) <= HISTORY_MAX,
{
    let bonus = if bonus < -HISTORY_MAX {
        -HISTORY_MAX
    } else if bonus > HISTORY_MAX {
        HISTORY_MAX
    } else {
        bonus
    };
    let magnitude = if bonus < 0 {
        -bonus
    } else {
        bonus
    };
    let e = *entry as i32;
    proof {
        assert(-16384 * 16384 <= e * magnitude <= 16384 * 16384) by (nonlinear_arith)
            requires
                -16384 <= e <= 16384,
                0 <= magnitude <= 16384,
        ;
    }
    let product = e * magnitude;
    let share = if product >= 0 {
        product / HISTORY_MAX
    } else {
        -((-product) / HISTORY_MAX)
    };
    proof {
        lemma_history_bound(e as int, bonus as int, magnitude as int, product as int, share as int);
    }
    *entry = (e + bonus - share) as i16;
}

/// The gravity update keeps an entry within the limits.
proof fn lemma_history_bound(e: int, b: int, mag: int, product: int, share: int)
    by (nonlinear_arith)
    requires
        -16384 <= e <= 16384,
        -16384 <= b <= 16384,
        mag == if b < 0 { -b } else { b },
        product == e * mag,
        share == if product >= 0 { product / 16384 } else { -((-product) / 16384) },
    ensures
        -16384 <= e + b - share <= 16384,
        -16384 * 16384 <= product <= 16384 * 16384,
{
}

} // verus!
