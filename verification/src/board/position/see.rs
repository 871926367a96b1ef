//! Static exchange evaluation: the material balance of the captures on one square, each side
//! taking with its least valuable piece and free to stop.
use vstd::prelude::*;

use crate::board::bitlist::{Bitlist, bit, lemma_bit_ops, lemma_popcount_insert, popcount};
use crate::board::data::BoardData;
use crate::board::index::{PieceIndex, colour_of_index};
use crate::board::position::Board;
use crate::chessmove::{Move, MoveType};
use crate::colour::Colour;
use crate::piece::Piece;
use crate::square::{Square, Square16x8, direction_between, sq_rank};

verus! {

broadcast use {Square::lemma_index_range, PieceIndex::lemma_index_range, BoardData::lemma_sq_of_range};

/// The value of a piece in an exchange; nothing is worth nothing.
pub open spec fn exchange_value(p: Option<Piece>) -> int {
    match p {
        None => 0,
        Some(Piece::Pawn) => 1,
        Some(Piece::Knight) => 3,
        Some(Piece::Bishop) => 3,
        Some(Piece::Rook) => 5,
        Some(Piece::Queen) => 9,
        Some(Piece::King) => 100,
    }
}

/// True if `i` is the lowest slot satisfying `pred`.
pub open spec fn is_lowest(pred: spec_fn(int) -> bool, i: int) -> bool {
    0 <= i < 32 && pred(i) && forall|j: int| 0 <= j < i ==> !#[trigger] pred(j)
}

/// The lowest slot satisfying `pred`, if any does.
pub open spec fn lowest(pred: spec_fn(int) -> bool) -> Option<int> {
    if exists|i: int| 0 <= i < 32 && #[trigger] pred(i) {
        Some(choose|i: int| is_lowest(pred, i))
    } else {
        None
    }
}

/// True if `i` satisfies `pred` and stands on the lowest square of the slots that do.
pub open spec fn is_lowest_square(data: BoardData, pred: spec_fn(int) -> bool, i: int) -> bool {
    &&& 0 <= i < 32
    &&& pred(i)
    &&& forall|j: int| 0 <= j < 32 && #[trigger] pred(j) ==> data.sq_of(i) <= data.sq_of(j)
}

/// The slot satisfying `pred` on the lowest square, if any does.
pub open spec fn lowest_square(data: BoardData, pred: spec_fn(int) -> bool) -> Option<int> {
    if exists|i: int| 0 <= i < 32 && #[trigger] pred(i) {
        Some(choose|i: int| is_lowest_square(data, pred, i))
    } else {
        None
    }
}

/// True if a capture by a pawn on `dest` promotes it: `dest` is on the first or last rank.
pub open spec fn promotes_on(dest: int) -> bool {
    sq_rank(dest) == 0 || sq_rank(dest) == 7
}

/// The slots of `set` holding a piece of kind `k`.
pub open spec fn of_kind(data: BoardData, set: Set<int>, k: Piece) -> spec_fn(int) -> bool {
    |i: int| set.contains(i) && data.kind(i) == Some(k)
}

/// The least valuable piece of `set`: of its pawns the one on the lowest square, else of its
/// knights, and so on up to its kings.
pub open spec fn least_valuable(data: BoardData, set: Set<int>) -> Option<int> {
    if lowest_square(data, of_kind(data, set, Piece::Pawn)) is Some {
        lowest_square(data, of_kind(data, set, Piece::Pawn))
    } else if lowest_square(data, of_kind(data, set, Piece::Knight)) is Some {
        lowest_square(data, of_kind(data, set, Piece::Knight))
    } else if lowest_square(data, of_kind(data, set, Piece::Bishop)) is Some {
        lowest_square(data, of_kind(data, set, Piece::Bishop))
    } else if lowest_square(data, of_kind(data, set, Piece::Rook)) is Some {
        lowest_square(data, of_kind(data, set, Piece::Rook))
    } else if lowest_square(data, of_kind(data, set, Piece::Queen)) is Some {
        lowest_square(data, of_kind(data, set, Piece::Queen))
    } else {
        lowest_square(data, of_kind(data, set, Piece::King))
    }
}

/// The attackers of square `t` of colour `colour`.
pub open spec fn attackers(data: BoardData, t: int, colour: Colour) -> Set<int> {
    Set::new(|i: int| data.attacked(t, i) && 0 <= i < 32 && colour_of_index(i) == colour)
}

/// A slider standing behind the piece that left `mover`, on the line from `mover` to `dest`:
/// one that attacked `mover`, has not moved, and slides along that line towards `dest`.
pub open spec fn behind(data: BoardData, dest: int, mover: int, moved: Set<int>) -> spec_fn(
    int,
) -> bool {
    |i: int|
        0 <= i < 32 && data.attacked(mover, i) && data.kind(i) is Some && data.kind(
            i,
        ).unwrap().is_slider() && !moved.contains(i) && direction_between(mover, dest) is Some
            && direction_between(data.sq_of(i), dest) == direction_between(mover, dest)
            && direction_between(mover, dest).unwrap().slides(data.kind(i).unwrap())
}

/// The state of an exchange: the attackers of each side still to capture, and the pieces that
/// have captured.
pub struct ExchangeState {
    pub ours: Set<int>,
    pub theirs: Set<int>,
    pub moved: Set<int>,
}

/// After the piece on `mover` has captured, the lowest slider behind it joins its side's
/// attackers.
pub open spec fn add_xray(
    data: BoardData,
    side: Colour,
    dest: int,
    mover: int,
    st: ExchangeState,
) -> ExchangeState {
    match lowest(behind(data, dest, mover, st.moved)) {
        None => st,
        Some(i) => if colour_of_index(i) == side {
            ExchangeState { ours: st.ours.insert(i), ..st }
        } else {
            ExchangeState { theirs: st.theirs.insert(i), ..st }
        },
    }
}

/// The piece of slot `i` captures: it leaves the attackers and joins the moved pieces, and a
/// slider or pawn may uncover another slider behind it.
pub open spec fn take(data: BoardData, side: Colour, dest: int, i: int, st: ExchangeState) -> ExchangeState {
    let st1 = ExchangeState {
        ours: st.ours.remove(i),
        theirs: st.theirs.remove(i),
        moved: st.moved.insert(i),
    };
    if data.kind(i) == Some(Piece::Knight) || data.kind(i) == Some(Piece::King) {
        st1
    } else {
        add_xray(data, side, dest, data.sq_of(i), st1)
    }
}

/// The next capture from the attackers `set`: the least valuable of them that has not moved,
/// and the state after it captures.
pub open spec fn next_capture(
    data: BoardData,
    side: Colour,
    dest: int,
    set: Set<int>,
    st: ExchangeState,
) -> Option<(Piece, ExchangeState)> {
    match least_valuable(data, set.difference(st.moved)) {
        None => None,
        Some(i) => Some((data.kind(i).unwrap(), take(data, side, dest, i, st))),
    }
}

/// The exchange from the point where the opponent is to recapture `attacker` with the score
/// `score`, within the window `alpha`..`beta`: each side captures with its least valuable piece
/// and stands pat when capturing does not pay; a pawn of the side to move that recaptures on
/// the last rank becomes a queen.
pub open spec fn exchange(
    data: BoardData,
    side: Colour,
    dest: int,
    st: ExchangeState,
    attacker: Option<Piece>,
    score: int,
    alpha: int,
    beta: int,
    fuel: nat,
) -> int
    decreases fuel,
{
    if fuel == 0 {
        beta
    } else {
        match next_capture(data, side, dest, st.theirs, st) {
            None => beta,
            Some((a, st1)) => {
                let s1 = score - exchange_value(attacker);
                if s1 >= beta {
                    beta
                } else {
                    let alpha1 = if alpha > s1 {
                        alpha
                    } else {
                        s1
                    };
                    match next_capture(data, side, dest, st1.ours, st1) {
                        None => alpha1,
                        Some((a2, st2)) => {
                            let promoted = a2 == Piece::Pawn && promotes_on(dest);
                            let s2 = s1 + exchange_value(Some(a)) + if promoted {
                                8int
                            } else {
                                0int
                            };
                            if s2 <= alpha1 {
                                alpha1
                            } else {
                                exchange(
                                    data,
                                    side,
                                    dest,
                                    st2,
                                    if promoted {
                                        Some(Piece::Queen)
                                    } else {
                                        Some(a2)
                                    },
                                    s2,
                                    alpha1,
                                    if beta < s2 {
                                        beta
                                    } else {
                                        s2
                                    },
                                    (fuel - 1) as nat,
                                )
                            }
                        },
                    }
                }
            },
        }
    }
}

/// A set of slots that a bitlist holds.
pub open spec fn models(b: Bitlist, s: Set<int>) -> bool {
    forall|i: int| #[trigger] b.has(i) <==> s.contains(i)
}

/// If some slot below 32 satisfies `pred`, a lowest one does.
pub proof fn lemma_lowest_exists(pred: spec_fn(int) -> bool, n: int)
    requires
        0 <= n <= 32,
    ensures
        (exists|i: int| 0 <= i < n && #[trigger] pred(i)) ==> exists|i: int| #[trigger] is_lowest(pred, i),
    decreases n,
{
    if n > 0 {
        lemma_lowest_exists(pred, n - 1);
        if exists|i: int| 0 <= i < n && #[trigger] pred(i) {
            if !(exists|i: int| 0 <= i < n - 1 && #[trigger] pred(i)) {
                assert(is_lowest(pred, n - 1));
            }
        }
    }
}

/// The lowest slot satisfying a predicate is the one that `lowest` picks.
pub proof fn lemma_lowest_is(pred: spec_fn(int) -> bool, i: int)
    requires
        is_lowest(pred, i),
    ensures
        lowest(pred) == Some(i),
{
    lemma_lowest_exists(pred, 32);
    let c = choose|j: int| is_lowest(pred, j);
    assert(is_lowest(pred, c));
    if c < i {
        assert(!pred(c));
    } else if c > i {
        assert(!pred(i));
    }
}

/// With no slot satisfying `pred`, `lowest` finds none.
pub proof fn lemma_lowest_none(pred: spec_fn(int) -> bool)
    requires
        forall|i: int| 0 <= i < 32 ==> !#[trigger] pred(i),
    ensures
        lowest(pred) is None,
{
}

/// The slots a bitlist holds.
pub open spec fn set_of(b: Bitlist) -> Set<int> {
    Set::new(|i: int| b.has(i))
}

/// The lowest slot of `b`, which holds exactly the slots satisfying `pred`.
fn lowest_in(b: Bitlist, Ghost(pred): Ghost<spec_fn(int) -> bool>) -> (r: Option<PieceIndex>)
    requires
        forall|i: int| 0 <= i < 32 ==> (b.has(i) <==> #[trigger] pred(i)),
    ensures
        match r {
            Some(p) => lowest(pred) == Some(p.index()) && is_lowest(pred, p.index()),
            None => lowest(pred) is None,
        },
{
    let r = b.peek();
    proof {
        Bitlist::lemma_empty(b);
        match r {
            Some(p) => {
                assert(is_lowest(pred, p.index()));
                lemma_lowest_is(pred, p.index());
            },
            None => {
                assert forall|i: int| 0 <= i < 32 implies !#[trigger] pred(i) by {
                    assert(!b.has(i));
                }
                lemma_lowest_none(pred);
            },
        }
    }
    r
}

/// The value of a piece in an exchange.
fn piece_value(piece: Option<Piece>) -> (r: i32)
    ensures
        r == exchange_value(piece),
{
    match piece {
        None => 0,
        Some(Piece::Pawn) => 1,
        Some(Piece::Knight) => 3,
        Some(Piece::Bishop) => 3,
        Some(Piece::Rook) => 5,
        Some(Piece::Queen) => 9,
        Some(Piece::King) => 100,
    }
}

impl Board {
    /// The static exchange evaluation of `m`: the material the side to move can expect to win
    /// by `m` and the captures on its destination that follow, each side capturing with its
    /// least valuable attacker (a slider joining in once the piece in front of it has taken)
    /// and stopping when capturing further does not pay.
    pub open spec fn see(self, m: Move) -> int {
        let data = self.rep();
        let side = self.turn();
        let f = m.from_idx();
        let d = m.dest_idx();
        let slot = data.slot_at(f).unwrap();
        let st0 = ExchangeState {
            ours: attackers(data, d, side).remove(slot),
            theirs: attackers(data, d, side.other()),
            moved: Set::empty().insert(slot),
        };
        let st = add_xray(data, side, d, f, st0);
        let victim = match self.at(d) {
            Some(pc) => Some(pc.0),
            None => None,
        };
        let base = if m.move_kind() == MoveType::EnPassant {
            1
        } else {
            exchange_value(victim)
        };
        let score = match m.move_kind().promotion() {
            Some(p) => base + exchange_value(Some(p)) - 1,
            None => base,
        };
        let attacker = match m.move_kind().promotion() {
            Some(p) => Some(p),
            None => match self.at(f) {
                Some(pc) => Some(pc.0),
                None => None,
            },
        };
        exchange(data, side, d, st, attacker, score, -1000, score, 32)
    }

    /// Once the piece on `mover_square` has captured on `dest`, add the lowest slider behind it
    /// on that line to its side's attackers.
    fn add_xrays(
        &self,
        dest: Square,
        mover_square: Square,
        our: &mut Bitlist,
        their: &mut Bitlist,
        moved: Bitlist,
        Ghost(st): Ghost<ExchangeState>,
    )
        requires
            models(*old(our), st.ours),
            models(*old(their), st.theirs),
            models(moved, st.moved),
        ensures
            models(*final(our), add_xray(self.rep(), self.turn(), dest.index(), mover_square.index(), st).ours),
            models(*final(their), add_xray(self.rep(), self.turn(), dest.index(), mover_square.index(), st).theirs),
    {
        proof {
            use_type_invariant(self);
        }
        let ghost data = self.data;
        let ghost pred = behind(data, dest.index(), mover_square.index(), st.moved);
        let pm = self.data.piecemask();
        let sliders = pm.bishops().or(pm.rooks()).or(pm.queens());
        let candidates = self.data.attacks_to(mover_square, Colour::White).or(
            self.data.attacks_to(mover_square, Colour::Black),
        ).and(sliders).and(moved.invert());
        proof {
            assert forall|i: int| #[trigger] candidates.has(i) <==> (0 <= i < 32 && data.attacked(
                mover_square.index(),
                i,
            ) && data.kind(i) is Some && data.kind(i).unwrap().is_slider() && !st.moved.contains(i)) by {
                if 0 <= i < 32 {
                    assert(colour_of_index(i) == Colour::White || colour_of_index(i) == Colour::Black);
                }
            }
        }
        let direction = match Square16x8::from_square(mover_square).direction(
            Square16x8::from_square(dest),
        ) {
            Some(d) => d,
            None => {
                proof {
                    assert forall|i: int| 0 <= i < 32 implies !#[trigger] pred(i) by {}
                    lemma_lowest_none(pred);
                }
                return;
            },
        };
        let target16 = Square16x8::from_square(dest);
        let mut it = candidates.into_iter();
        loop
            invariant
                self.data.wf(),
                data == self.data,
                pred == behind(data, dest.index(), mover_square.index(), st.moved),
                direction_between(mover_square.index(), dest.index()) == Some(direction),
                target16.square_index() == dest.index(),
                target16.on(),
                models(*our, st.ours),
                models(*their, st.theirs),
                forall|i: int| #[trigger] candidates.has(i) <==> (0 <= i < 32 && data.attacked(
                    mover_square.index(),
                    i,
                ) && data.kind(i) is Some && data.kind(i).unwrap().is_slider() && !st.moved.contains(i)),
                forall|i: int| #[trigger] it.rest().has(i) ==> candidates.has(i),
                forall|j: int| #[trigger] candidates.has(j) && !it.rest().has(j) ==> !pred(j),
                forall|j: int, k: int|
                    #![trigger candidates.has(j), it.rest().has(k)]
                    candidates.has(j) && !it.rest().has(j) && it.rest().has(k) ==> j < k,
            decreases popcount(it.rest()@),
        {
            let ghost before = it.rest();
            let candidate = match it.next() {
                None => {
                    proof {
                        Bitlist::lemma_empty(before);
                        assert forall|i: int| 0 <= i < 32 implies !#[trigger] pred(i) by {
                            if pred(i) {
                                assert(candidates.has(i));
                                assert(!before.has(i));
                            }
                        }
                        lemma_lowest_none(pred);
                    }
                    return;
                },
                Some(c) => c,
            };
            proof {
                assert(candidates.has(candidate.index()));
            }
            let candidate_square = self.data.square_of_piece(candidate);
            let candidate_type = self.data.piece_from_bit(candidate);
            let matches = match Square16x8::from_square(candidate_square).direction(target16) {
                Some(candidate_direction) => candidate_direction.valid_for_slider(candidate_type)
                    && candidate_direction == direction,
                None => false,
            };
            if matches {
                proof {
                    assert(pred(candidate.index()));
                    assert forall|j: int| 0 <= j < candidate.index() implies !#[trigger] pred(j) by {
                        if pred(j) {
                            assert(candidates.has(j));
                            assert(!before.has(j));
                        }
                    }
                    assert(is_lowest(pred, candidate.index()));
                    lemma_lowest_is(pred, candidate.index());
                }
                let bit = Bitlist::from_piece(candidate);
                if candidate.colour() == self.side {
                    *our = our.or(bit);
                } else {
                    *their = their.or(bit);
                }
                return;
            }
            proof {
                assert(!pred(candidate.index()));
            }
        }
    }

    /// The slot of `b` on the lowest square; `b` holds exactly the slots satisfying `pred`.
    fn lowest_square_in(&self, b: Bitlist, Ghost(pred): Ghost<spec_fn(int) -> bool>) -> (r: Option<
        PieceIndex,
    >)
        requires
            forall|i: int| 0 <= i < 32 ==> (b.has(i) <==> #[trigger] pred(i)),
            forall|i: int| #[trigger] pred(i) ==> self.rep().live(i),
        ensures
            match r {
                Some(p) => lowest_square(self.rep(), pred) == Some(p.index()) && is_lowest_square(
                    self.rep(),
                    pred,
                    p.index(),
                ),
                None => lowest_square(self.rep(), pred) is None,
            },
    {
        proof {
            use_type_invariant(self);
        }
        let ghost data = self.data;
        let mut best: Option<PieceIndex> = None;
        let mut best_square: u8 = 64;
        let mut it = b.into_iter();
        loop
            invariant
                self.data.consistent(),
                data == self.data,
                forall|i: int| #[trigger] it.rest().has(i) ==> b.has(i),
                forall|i: int|
                    #[trigger] b.has(i) && !it.rest().has(i) ==> best is Some && data.sq_of(
                        best.unwrap().index(),
                    ) <= data.sq_of(i),
                best matches Some(p) ==> b.has(p.index()) && best_square == data.sq_of(p.index()),
                best is None ==> best_square == 64,
            ensures
                forall|i: int| !#[trigger] it.rest().has(i),
            decreases popcount(it.rest()@),
        {
            let ghost before = it.rest();
            match it.next() {
                None => {
                    proof {
                        Bitlist::lemma_empty(before);
                        Bitlist::lemma_empty(it.rest());
                    }
                    break;
                },
                Some(p) => {
                    proof {
                        assert(b.has(p.index()));
                    }
                    let square = self.data.square_of_piece(p).into_inner();
                    if square < best_square {
                        best = Some(p);
                        best_square = square;
                    }
                },
            }
        }
        proof {
            match best {
                Some(p) => {
                    assert forall|j: int| 0 <= j < 32 && #[trigger] pred(j) implies data.sq_of(p.index())
                        <= data.sq_of(j) by {
                        assert(b.has(j));
                    }
                    assert(is_lowest_square(data, pred, p.index()));
                    let c = choose|i: int| is_lowest_square(data, pred, i);
                    assert(is_lowest_square(data, pred, c));
                    assert(data.sq_of(c) == data.sq_of(p.index()));
                    assert(data.live(c) && data.live(p.index()));
                    assert(data.slot_at(data.sq_of(c)) == Some(c));
                    assert(data.slot_at(data.sq_of(p.index())) == Some(p.index()));
                },
                None => {
                    assert forall|i: int| 0 <= i < 32 implies !#[trigger] pred(i) by {
                        if pred(i) {
                            assert(b.has(i));
                        }
                    }
                },
            }
        }
        best
    }

    /// The piece of slot `piece` captures on `dest`: it leaves the attackers, joins the moved
    /// pieces, and, if `xray`, uncovers the slider behind it.
    fn take_piece(
        &self,
        piece: PieceIndex,
        dest: Square,
        our: &mut Bitlist,
        their: &mut Bitlist,
        moved: &mut Bitlist,
        xray: bool,
        Ghost(st): Ghost<ExchangeState>,
    )
        requires
            self.rep().live(piece.index()),
            xray == !(self.rep().kind(piece.index()) == Some(Piece::Knight) || self.rep().kind(
                piece.index(),
            ) == Some(Piece::King)),
            models(*old(our), st.ours),
            models(*old(their), st.theirs),
            models(*old(moved), st.moved),
            !st.moved.contains(piece.index()),
        ensures
            models(*final(our), take(self.rep(), self.turn(), dest.index(), piece.index(), st).ours),
            models(*final(their), take(self.rep(), self.turn(), dest.index(), piece.index(), st).theirs),
            models(*final(moved), take(self.rep(), self.turn(), dest.index(), piece.index(), st).moved),
            popcount(final(moved)@) == popcount(old(moved)@) + 1,
    {
        let ghost i = piece.index();
        let piece_bit = Bitlist::from_piece(piece);
        let not_piece = piece_bit.invert();
        let ghost old_moved = *moved;
        *our = our.and(not_piece);
        *their = their.and(not_piece);
        *moved = moved.or(piece_bit);
        let ghost st1 = ExchangeState {
            ours: st.ours.remove(i),
            theirs: st.theirs.remove(i),
            moved: st.moved.insert(i),
        };
        proof {
            assert forall|j: int| #[trigger] our.has(j) <==> st1.ours.contains(j) by {}
            assert forall|j: int| #[trigger] their.has(j) <==> st1.theirs.contains(j) by {}
            assert forall|j: int| #[trigger] moved.has(j) <==> st1.moved.contains(j) by {}
            assert(!old_moved.has(i));
            assert forall|j: int| bit(moved@, j) <==> (bit(old_moved@, j) || j == i) by {
                assert(moved.has(j) <==> (old_moved.has(j) || piece_bit.has(j)));
            }
            lemma_popcount_insert(old_moved@, moved@, i);
        }
        if xray {
            let square = self.data.square_of_piece(piece);
            self.add_xrays(dest, square, our, their, *moved, Ghost(st1));
        }
    }

    /// The next capture on `dest` from the attackers `bitlist`: the least valuable one that has
    /// not moved takes, and its type is returned.
    fn next_piece(
        &self,
        dest: Square,
        bitlist: Bitlist,
        our: &mut Bitlist,
        their: &mut Bitlist,
        moved: &mut Bitlist,
        Ghost(st): Ghost<ExchangeState>,
    ) -> (r: Option<Piece>)
        requires
            models(*old(our), st.ours),
            models(*old(their), st.theirs),
            models(*old(moved), st.moved),
        ensures
            match next_capture(self.rep(), self.turn(), dest.index(), set_of(bitlist), st) {
                None => r is None,
                Some((a, st1)) => {
                    &&& r == Some(a)
                    &&& models(*final(our), st1.ours)
                    &&& models(*final(their), st1.theirs)
                    &&& models(*final(moved), st1.moved)
                    &&& popcount(final(moved)@) == popcount(old(moved)@) + 1
                },
            },
    {
        proof {
            use_type_invariant(self);
        }
        let ghost data = self.data;
        let ghost avail = set_of(bitlist).difference(st.moved);
        let bits = bitlist.and(moved.invert());
        let pm = self.data.piecemask();
        proof {
            assert forall|i: int| 0 <= i < 32 implies (bits.has(i) <==> avail.contains(i)) by {}
        }
        let ghost kinds = seq![Piece::Pawn, Piece::Knight, Piece::Bishop, Piece::Rook, Piece::Queen, Piece::King];
        let pawn = self.lowest_square_in(bits.and(pm.pawns()), Ghost(of_kind(data, avail, Piece::Pawn)));
        if let Some(piece) = pawn {
            proof {
                assert(of_kind(data, avail, Piece::Pawn)(piece.index()));
            }
            self.take_piece(piece, dest, our, their, moved, true, Ghost(st));
            return Some(Piece::Pawn);
        }
        let knight = self.lowest_square_in(bits.and(pm.knights()), Ghost(of_kind(data, avail, Piece::Knight)));
        if let Some(piece) = knight {
            proof {
                assert(of_kind(data, avail, Piece::Knight)(piece.index()));
            }
            self.take_piece(piece, dest, our, their, moved, false, Ghost(st));
            return Some(Piece::Knight);
        }
        let bishop = self.lowest_square_in(bits.and(pm.bishops()), Ghost(of_kind(data, avail, Piece::Bishop)));
        if let Some(piece) = bishop {
            proof {
                assert(of_kind(data, avail, Piece::Bishop)(piece.index()));
            }
            self.take_piece(piece, dest, our, their, moved, true, Ghost(st));
            return Some(Piece::Bishop);
        }
        let rook = self.lowest_square_in(bits.and(pm.rooks()), Ghost(of_kind(data, avail, Piece::Rook)));
        if let Some(piece) = rook {
            proof {
                assert(of_kind(data, avail, Piece::Rook)(piece.index()));
            }
            self.take_piece(piece, dest, our, their, moved, true, Ghost(st));
            return Some(Piece::Rook);
        }
        let queen = self.lowest_square_in(bits.and(pm.queens()), Ghost(of_kind(data, avail, Piece::Queen)));
        if let Some(piece) = queen {
            proof {
                assert(of_kind(data, avail, Piece::Queen)(piece.index()));
            }
            self.take_piece(piece, dest, our, their, moved, true, Ghost(st));
            return Some(Piece::Queen);
        }
        let king = self.lowest_square_in(bits.and(pm.kings()), Ghost(of_kind(data, avail, Piece::King)));
        if let Some(piece) = king {
            proof {
                assert(of_kind(data, avail, Piece::King)(piece.index()));
            }
            self.take_piece(piece, dest, our, their, moved, false, Ghost(st));
            return Some(Piece::King);
        }
        None
    }

    /// The static exchange evaluation of `m`; see `see`.
    pub fn static_exchange_evaluation(&self, m: Move) -> (r: i32)
        requires
            self.rep().slot_at(m.from_idx()) is Some,
        ensures
            r == self.see(m),
    {
        proof {
            use_type_invariant(self);
        }
        let ghost data = self.data;
        let side = self.side;
        let from = m.from();
        let dest = m.dest();
        let ghost d = dest.index();
        let mut our = self.data.attacks_to(dest, side);
        let mut their = self.data.attacks_to(dest, side.not());
        let moved0 = Bitlist::new();
        let from_index = match self.data.piece_index(from) {
            Some(p) => p,
            None => {
                return 0;
            },
        };
        let from_bit = Bitlist::from_piece(from_index);
        our = our.and(from_bit.invert());
        let mut moved = moved0.or(from_bit);
        let ghost slot = from_index.index();
        let ghost st0 = ExchangeState {
            ours: attackers(data, d, side).remove(slot),
            theirs: attackers(data, d, side.other()),
            moved: Set::empty().insert(slot),
        };
        proof {
            lemma_bit_ops(0, 0, 0);
            assert forall|i: int| #[trigger] our.has(i) <==> st0.ours.contains(i) by {}
            assert forall|i: int| #[trigger] their.has(i) <==> st0.theirs.contains(i) by {}
            assert forall|i: int| #[trigger] moved.has(i) <==> st0.moved.contains(i) by {
                assert(moved.has(i) <==> (moved0.has(i) || from_bit.has(i)));
                if 0 <= i < 32 {
                    lemma_bit_ops(0, 0, i as u32);
                }
            }
            assert forall|j: int| bit(moved@, j) <==> (bit(0u32, j) || j == slot) by {
                assert(moved.has(j) <==> (moved0.has(j) || from_bit.has(j)));
                if 0 <= j < 32 {
                    lemma_bit_ops(0, 0, j as u32);
                }
            }
            lemma_bit_ops(0, 0, slot as u32);
            lemma_popcount_insert(0u32, moved@, slot);
            crate::board::bitlist::lemma_bits_below_zero(32);
        }
        self.add_xrays(dest, from, &mut our, &mut their, moved, Ghost(st0));
        let ghost st = add_xray(data, side, d, from.index(), st0);
        let mut victim = self.piece_from_square(dest);
        let mut attacker = self.piece_from_square(from);
        let mut score: i32 = if m.kind() == MoveType::EnPassant {
            1
        } else {
            piece_value(victim)
        };
        if let Some(prom) = m.promotion_piece() {
            score = score + piece_value(Some(prom)) - piece_value(Some(Piece::Pawn));
            attacker = Some(prom);
        }
        let mut alpha: i32 = -1000;
        let mut beta: i32 = score;
        let promotion_rank = dest.into_inner() < 8 || dest.into_inner() >= 56;
        let ghost result = self.see(m);
        let ghost mut fuel: nat = 32;
        let ghost mut st_g = st;
        proof {
            assert(result == exchange(data, side, d, st_g, attacker, score as int, alpha as int, beta as int, fuel));
        }
        loop
            invariant_except_break
                result == exchange(data, side, d, st_g, attacker, score as int, alpha as int, beta as int, fuel),
                models(our, st_g.ours),
                models(their, st_g.theirs),
                models(moved, st_g.moved),
                popcount(moved@) + 2 * fuel == 65,
                -1000 <= alpha <= beta <= 200,
                beta <= score <= beta + 108,
            invariant
                self.data.wf(),
                data == self.data,
                side == self.turn(),
                d == dest.index(),
                promotion_rank == promotes_on(d),
            ensures
                score == result,
            decreases fuel,
        {
            proof {
                crate::board::bitlist::lemma_bits_below_bound(moved@, 32);
            }
            victim = attacker;
            let theirs_now = their;
            proof {
                assert(set_of(theirs_now) =~= st_g.theirs);
            }
            let ghost st_a = st_g;
            attacker = self.next_piece(dest, theirs_now, &mut our, &mut their, &mut moved, Ghost(st_g));
            if attacker.is_none() {
                score = beta;
                break;
            }
            let ghost st1 = next_capture(data, side, d, st_a.theirs, st_a).unwrap().1;
            score = score - piece_value(victim);
            if score >= beta {
                score = beta;
                break;
            }
            alpha = if alpha > score {
                alpha
            } else {
                score
            };
            victim = attacker;
            let ours_now = our;
            proof {
                assert(set_of(ours_now) =~= st1.ours);
            }
            attacker = self.next_piece(dest, ours_now, &mut our, &mut their, &mut moved, Ghost(st1));
            if attacker.is_none() {
                score = alpha;
                break;
            }
            let ghost st2 = next_capture(data, side, d, st1.ours, st1).unwrap().1;
            // A pawn of the side to move recapturing on the last rank becomes a queen.
            let mut bonus: i32 = 0;
            if promotion_rank {
                if let Some(Piece::Pawn) = attacker {
                    bonus = 8;
                    attacker = Some(Piece::Queen);
                }
            }
            score = score + piece_value(victim) + bonus;
            if score <= alpha {
                score = alpha;
                break;
            }
            beta = if beta < score {
                beta
            } else {
                score
            };
            proof {
                st_g = st2;
                fuel = (fuel - 1) as nat;
            }
        }
        score
    }
}

} // verus!
