//! Moves that keep the king safe.
use vstd::prelude::*;

use crate::board::attacks::{
    attacks, clear_ray, dist, is_queen_dir, king_attacks, lemma_between_geometry, lemma_direction_ray,
    lemma_ray_geometry, lemma_ray_shift, lemma_slider_through, ray_on, ray_sq, slider_attacks,
    strictly_between,
};
use crate::board::pins::{
    ep_pins_slot, lemma_pair_ep_pinned, lemma_seg_one, lemma_seg_two, lemma_sole_blocker_pinned, on_line, pin_line,
    pins_slot, seg_count, PinInfo,
};
use crate::board::position::Board;
use crate::chessmove::{Move, MoveType};
use crate::colour::Colour;
use crate::piece::Piece;
use crate::square::{Direction, backward, direction_between, forward, sq_file, sq_rank, step};

verus! {

/// On a rank or a file through `q`, strictly between `s` and `t`, a square next to `q` on that
/// line that is neither `s` nor `t` lies strictly between them too.
pub proof fn lemma_neighbour_between(s: int, q: int, t: int, w: int)
    requires
        0 <= s < 64,
        0 <= q < 64,
        0 <= t < 64,
        0 <= w < 64,
        strictly_between(s, q, t),
        w != s,
        w != t,
        (sq_rank(w) == sq_rank(q) && sq_rank(s) == sq_rank(q) && (sq_file(w) - sq_file(q) == 1 || sq_file(q)
            - sq_file(w) == 1)) || (sq_file(w) == sq_file(q) && sq_file(s) == sq_file(q) && (sq_rank(w)
            - sq_rank(q) == 1 || sq_rank(q) - sq_rank(w) == 1)),
    ensures
        strictly_between(s, w, t),
{
    assert(sq_rank(w) != sq_rank(s) || sq_file(w) != sq_file(s)) by {
        assert(w == 8 * sq_rank(w) + w % 8);
        assert(s == 8 * sq_rank(s) + s % 8);
    }
    assert(sq_rank(w) != sq_rank(t) || sq_file(w) != sq_file(t)) by {
        assert(w == 8 * sq_rank(w) + w % 8);
        assert(t == 8 * sq_rank(t) + t % 8);
    }
}

/// Squares on the line from `s` to `k` strictly between them lie strictly between `s` and `k`.
pub proof fn lemma_line_between(s: int, dd: Direction, t: int, b: int)
    requires
        0 <= s < 64,
        is_queen_dir(dd),
        1 <= t < b,
        ray_on(s, dd, b),
    ensures
        strictly_between(s, ray_sq(s, dd, t), ray_sq(s, dd, b)),
{
    lemma_ray_shift(s, dd, t, 0);
    assert(ray_on(s, dd, t)) by {
        lemma_ray_shift(s, dd, 0, t);
        assert(ray_sq(s, dd, 0) == s) by {
            crate::board::attacks::lemma_sq_at(crate::square::sq_rank(s), crate::square::sq_file(s));
        }
    }
    lemma_ray_geometry(s, dd, t);
    let q = ray_sq(s, dd, t);
    lemma_ray_shift(s, dd, t, b - t);
    lemma_ray_geometry(q, dd, b - t);
}

/// A square next to `k` beyond it, seen from `s`, is the step from `k` in the direction from
/// `s` to `k`.
pub proof fn lemma_beyond_step(s: int, k: int, d: int)
    requires
        0 <= s < 64,
        0 <= k < 64,
        0 <= d < 64,
        strictly_between(s, k, d),
        king_attacks(k, d),
    ensures
        step(k, direction_between(s, k).unwrap()) == Some(d),
{
    let dd = direction_between(s, k).unwrap();
    lemma_between_geometry(s, k, d);
    lemma_direction_ray(k, d);
    crate::board::attacks::lemma_step(k, dd, d);
    assert(dist(k, d) == 1);
    crate::board::attacks::lemma_sq_at(crate::square::sq_rank(k) + dd.dr(), crate::square::sq_file(k) + dd.df());
}

/// A move along the line of a pin, towards the king or towards the pinner, with a clear path,
/// ends strictly between the pinner and the king, or on the pinner.
pub proof fn lemma_pin_line_move(
    s: int,
    f: int,
    k: int,
    d: int,
    md: Direction,
    n: int,
    occ: spec_fn(int) -> bool,
)
    requires
        0 <= s < 64,
        0 <= f < 64,
        0 <= k < 64,
        0 <= d < 64,
        strictly_between(s, f, k),
        is_queen_dir(md),
        ({
            let dd = direction_between(s, f).unwrap();
            (md.dr() == dd.dr() && md.df() == dd.df()) || (md.dr() == -dd.dr() && md.df() == -dd.df())
        }),
        n >= 1,
        ray_on(f, md, n),
        ray_sq(f, md, n) == d,
        forall|j: int| 1 <= j < n ==> !occ(#[trigger] ray_sq(f, md, j)),
        occ(s),
        occ(k),
        d != k,
    ensures
        strictly_between(s, d, k) || d == s,
{
    let dd = direction_between(s, f).unwrap();
    lemma_between_geometry(s, f, k);
    let a = dist(s, f);
    let b = dist(s, k);
    lemma_direction_ray(s, k);
    assert(ray_sq(s, dd, b) == k);
    assert(ray_sq(s, dd, a) == f);
    if md.dr() == dd.dr() && md.df() == dd.df() {
        // Towards the king: the square `j` steps on is the line square `a + j`.
        assert forall|j: int| 0 <= j <= n implies ray_sq(f, md, j) == ray_sq(f, dd, j) && (ray_on(f, md, j)
            == ray_on(f, dd, j)) by {}
        if n >= b - a {
            let j = b - a;
            lemma_ray_shift(s, dd, a, j);
            if j < n {
                assert(!occ(ray_sq(f, md, j)));
                assert(ray_sq(f, md, j) == k);
            } else {
                assert(d == k);
            }
        } else {
            lemma_ray_shift(s, dd, a, n);
            lemma_line_between(s, dd, a + n, b);
        }
    } else {
        // Towards the pinner: the square `j` steps back is the line square `a - j`.
        assert forall|j: int| 0 <= j <= a implies ray_on(f, md, j) && ray_sq(f, md, j) == ray_sq(s, dd, a - j) by {
            crate::board::position::movegen::lemma_ray_reverse(s, f, j);
            crate::board::position::movegen::lemma_direction_reverse(s, f);
        }
        if n >= a {
            if a < n {
                assert(!occ(ray_sq(f, md, a)));
                assert(ray_sq(f, md, a) == ray_sq(s, dd, 0));
                assert(ray_sq(s, dd, 0) == s) by {
                    crate::board::attacks::lemma_sq_at(crate::square::sq_rank(s), crate::square::sq_file(s));
                }
            } else {
                assert(ray_sq(s, dd, 0) == s) by {
                    crate::board::attacks::lemma_sq_at(crate::square::sq_rank(s), crate::square::sq_file(s));
                }
            }
        } else {
            lemma_line_between(s, dd, a - n, b);
        }
    }
}


impl Board {
    /// True if the position is not in check and `pininfo` holds exactly its pins: the slots
    /// pinned to the king of the side to move, each with the direction of its pin line.
    pub open spec fn calm(self, pininfo: PinInfo) -> bool {
        &&& self.pins_known(pininfo)
        &&& !self.checked()
    }

    /// True if the side to move has a king and `pininfo` holds exactly the pins of the
    /// position: the slots pinned to that king, each with the direction of its pin line.
    pub open spec fn pins_known(self, pininfo: PinInfo) -> bool {
        &&& self.rep().has_king(self.turn())
        &&& forall|i: int|
            0 <= i < 32 ==> (#[trigger] pininfo.pins@[i] is Some <==> exists|p: int| pins_slot(self, p, i))
        &&& forall|i: int|
            0 <= i < 32 && #[trigger] pininfo.pins@[i] is Some ==> exists|p: int|
                pins_slot(self, p, i) && pin_line(self, p).unwrap().1 == pininfo.pins@[i].unwrap()
    }

    /// True if moving the piece on `f` to `d` answers every check on the king of the side to
    /// move: a king steps to a square that no enemy piece attacks and that lies on no line
    /// from a checking slider through the king; any other piece takes each checking piece or
    /// lands strictly between it and the king.
    pub open spec fn answers_checks(self, f: int, d: int) -> bool {
        let k = self.king_at(self.turn());
        let enemy = self.turn().other();
        if f == k {
            &&& !self.rep().attacked_by(d, enemy)
            &&& forall|s: int|
                0 <= s < 64 && #[trigger] self.rep().attacker_at(s, k, enemy) && self.at(s).unwrap().0.is_slider()
                    ==> !strictly_between(s, k, d)
        } else {
            self.blocks_checks(d)
        }
    }

    /// True if a piece other than the king that lands on `d` takes or blocks every check: each
    /// enemy piece elsewhere that attacks the king has `d` strictly between it and the king.
    pub open spec fn blocks_checks(self, d: int) -> bool {
        let k = self.king_at(self.turn());
        let enemy = self.turn().other();
        forall|s: int|
            0 <= s < 64 && s != d && #[trigger] self.rep().attacker_at(s, k, enemy) ==> strictly_between(s, d, k)
    }

    /// True if no two different squares hold enemy pieces that attack the king of the side
    /// to move.
    pub open spec fn single_checker(self) -> bool {
        let k = self.king_at(self.turn());
        let enemy = self.turn().other();
        forall|s: int, t: int|
            0 <= s < 64 && 0 <= t < 64 && #[trigger] self.rep().attacker_at(s, k, enemy)
                && #[trigger] self.rep().attacker_at(t, k, enemy) ==> s == t
    }

    /// True if no three different squares hold enemy pieces that attack the king of the side
    /// to move.
    pub open spec fn at_most_two_checkers(self) -> bool {
        let k = self.king_at(self.turn());
        let enemy = self.turn().other();
        forall|s: int, t: int, u: int|
            0 <= s < 64 && 0 <= t < 64 && 0 <= u < 64 && #[trigger] self.rep().attacker_at(s, k, enemy)
                && #[trigger] self.rep().attacker_at(t, k, enemy) && #[trigger] self.rep().attacker_at(
                u,
                k,
                enemy,
            ) ==> s == t || s == u || t == u
    }

    /// True if `m` is en passant, castling, or a move that keeps the king safe.
    pub open spec fn safe_or_special(self, m: Move) -> bool {
        ||| m.move_kind() == MoveType::EnPassant
        ||| m.move_kind() == MoveType::KingsideCastle
        ||| m.move_kind() == MoveType::QueensideCastle
        ||| self.keeps_king_safe(m)
    }

    /// `pininfo` holds exactly the pawns of the side to move that may not take en passant.
    pub open spec fn ep_pins_known(self, pininfo: PinInfo) -> bool {
        forall|i: int| #[trigger] pininfo.enpassant_pinned.has(i) <==> exists|p: int| ep_pins_slot(self, p, i)
    }

    /// The conditions under which every en-passant capture the generator adds keeps the king
    /// safe: the en-passant square is as a double push leaves it, only the pawn that may be
    /// taken gives check, if anything does, and that pawn shields the king from no diagonal
    /// slider.
    pub open spec fn ep_conditions(self) -> bool {
        &&& self.ep_ready()
        &&& !self.ep_victim_shields()
        &&& forall|s: int|
            0 <= s < 64 && #[trigger] self.rep().attacker_at(s, self.king_at(self.turn()), self.turn().other())
                ==> s == self.ep_victim()
    }

    /// True if `v`, unless it has filled up to its capacity of 256 moves, holds every
    /// en-passant capture that keeps the king safe.
    pub open spec fn lists_ep(self, v: Seq<Move>) -> bool {
        v.len() < 256 ==> forall|m: Move|
            #[trigger] self.generated(m) && m.move_kind() == MoveType::EnPassant && self.keeps_king_safe(m) ==> lists(
                v,
                m.from_idx(),
                m.dest_idx(),
                m.move_kind(),
            )
    }

    /// Every en-passant capture that `after` adds to `before` keeps the king safe.
    pub open spec fn ep_moves_safe(self, before: Seq<Move>, after: Seq<Move>) -> bool {
        forall|i: int|
            before.len() <= i < after.len() && (#[trigger] after[i]).move_kind() == MoveType::EnPassant
                ==> self.keeps_king_safe(after[i])
    }

    /// The en-passant square is empty, and the enemy pawn that passed it stands just behind it.
    pub open spec fn ep_ready(self) -> bool {
        &&& self.ep_square() matches Some(e) && 0 <= e < 64 && self.at(e) is None
        &&& step(self.ep_square().unwrap(), backward(self.turn())) is Some
        &&& self.at(self.ep_victim()) == Some((Piece::Pawn, self.turn().other()))
    }

    /// An enemy bishop or queen would see the king along a diagonal but for the pawn that may
    /// be taken en passant: a position no game reaches, for the double push of that pawn would
    /// have left the side that made it attacking a king not to move.
    pub open spec fn ep_victim_shields(self) -> bool {
        let v = self.ep_victim();
        let k = self.king_at(self.turn());
        let occ = self.rep().occupied();
        exists|s: int|
            0 <= s < 64 && (#[trigger] self.at(s) matches Some(pc) && pc.1 == self.turn().other() && (pc.0
                == Piece::Bishop || pc.0 == Piece::Queen) && strictly_between(s, v, k) && sq_rank(v) != sq_rank(k)
                && sq_file(v) != sq_file(k) && slider_attacks(pc.0, s, k, |x: int| x != v && occ(x)))
    }

    /// An enemy slider whose line to the king holds nothing but the capturing pawn and the pawn
    /// it takes, and not the square it lands on, attacks the king once the capture is made.
    proof fn lemma_ep_opens_line(self, m: Move, s: int, piece: Piece)
        requires
            self.rep().wf(),
            self.rep().has_king(self.turn()),
            self.generated(m),
            m.move_kind() == MoveType::EnPassant,
            self.ep_ready(),
            0 <= s < 64,
            self.at(s) == Some((piece, self.turn().other())),
            piece == Piece::Bishop || piece == Piece::Rook || piece == Piece::Queen,
            direction_between(s, self.king_at(self.turn())) matches Some(dd) && dd.slides(piece),
            forall|j: int|
                1 <= j < dist(s, self.king_at(self.turn())) ==> {
                    let x = #[trigger] ray_sq(s, direction_between(s, self.king_at(self.turn())).unwrap(), j);
                    x == m.from_idx() || x == self.ep_victim() || (self.at(x) is None && x != m.dest_idx())
                },
        ensures
            !self.keeps_king_safe(m),
    {
        let f = m.from_idx();
        let d = m.dest_idx();
        let v = self.ep_victim();
        let k = self.king_at(self.turn());
        let enemy = self.turn().other();
        let dd = direction_between(s, k).unwrap();
        Move::lemma_fields_range(m);
        self.lemma_king_square();
        crate::board::attacks::lemma_step(d, backward(self.turn()), v);
        assert(self.king_after(m) == k);
        assert(s != d && s != f && s != v);
        assert(self.at_after(m, s) == self.at(s));
        let occ_a = self.occ_after(m);
        assert forall|j: int| 1 <= j < dist(s, k) implies !occ_a(#[trigger] ray_sq(s, dd, j)) by {
            let x = ray_sq(s, dd, j);
            if x != f && x != v {
                assert(self.at_after(m, x) == self.at(x));
            }
        }
        assert(self.attacker_after(m, s, k, enemy));
    }

    /// A pawn that may not take en passant, because an enemy slider along its rank would then
    /// see the king, leaves the king attacked if it does.
    pub proof fn lemma_ep_pinned_unsafe(self, m: Move, p: int)
        requires
            self.rep().wf(),
            self.rep().has_king(self.turn()),
            self.generated(m),
            m.move_kind() == MoveType::EnPassant,
            self.ep_ready(),
            ep_pins_slot(self, p, self.rep().slot_at(m.from_idx()).unwrap()),
        ensures
            !self.keeps_king_safe(m),
    {
        let f = m.from_idx();
        let d = m.dest_idx();
        let v = self.ep_victim();
        let k = self.king_at(self.turn());
        let side = self.turn();
        let data = self.rep();
        Move::lemma_fields_range(m);
        self.lemma_king_square();
        crate::board::attacks::lemma_step(d, backward(side), v);
        let (s, dd, n) = pin_line(self, p).unwrap();
        let fi = data.slot_at(f).unwrap();
        assert(data.sq_of(fi) == f);
        let j0 = choose|j: int| 1 <= j < n && #[trigger] ray_sq(s, dd, j) == data.sq_of(fi);
        lemma_direction_ray(s, k);
        lemma_line_between(s, dd, j0, n);
        assert(strictly_between(s, f, k));
        lemma_between_geometry(s, f, k);
        lemma_neighbour_between(s, f, k, v);
        lemma_between_geometry(s, v, k);
        let j1 = dist(s, v);
        assert(ray_sq(s, dd, j1) == v);
        assert forall|j: int| 1 <= j < n implies {
            let x = #[trigger] ray_sq(s, dd, j);
            x == f || x == v || (self.at(x) is None && x != d)
        } by {
            let x = ray_sq(s, dd, j);
            if x != f && x != v {
                if j == j0 || j == j1 {
                } else if self.at(x) is Some {
                    if self.at(x).unwrap().1 == side {
                        if j < j0 {
                            lemma_seg_two(self, s, dd, n - 1, side, j, j0);
                        } else {
                            lemma_seg_two(self, s, dd, n - 1, side, j0, j);
                        }
                    } else {
                        if j < j1 {
                            lemma_seg_two(self, s, dd, n - 1, side.other(), j, j1);
                        } else {
                            lemma_seg_two(self, s, dd, n - 1, side.other(), j1, j);
                        }
                    }
                }
                crate::board::attacks::lemma_ray_shift(s, dd, 0, j);
                crate::board::attacks::lemma_sq_at(sq_rank(s) + crate::board::attacks::scale(j, dd.dr()), sq_file(s)
                    + crate::board::attacks::scale(j, dd.df()));
            }
        }
        self.lemma_ep_opens_line(m, s, data.kind(p).unwrap());
    }

    /// A pinned pawn that takes en passant off its pin line leaves the king attacked.
    #[verifier::spinoff_prover]
    #[verifier::rlimit(80)]
    pub proof fn lemma_ep_off_pin_unsafe(self, m: Move)
        requires
            self.rep().wf(),
            self.rep().has_king(self.turn()),
            self.generated(m),
            m.move_kind() == MoveType::EnPassant,
            self.ep_ready(),
            !self.respects_pin(m.from_idx(), m.dest_idx()),
        ensures
            !self.keeps_king_safe(m),
    {
        let f = m.from_idx();
        let d = m.dest_idx();
        let v = self.ep_victim();
        let k = self.king_at(self.turn());
        let side = self.turn();
        let data = self.rep();
        Move::lemma_fields_range(m);
        self.lemma_king_square();
        crate::board::attacks::lemma_step(d, backward(side), v);
        let fi = data.slot_at(f).unwrap();
        assert(data.sq_of(fi) == f);
        let p = choose|p: int| pins_slot(self, p, fi);
        let (s, dd, n) = pin_line(self, p).unwrap();
        let j0 = choose|j: int| 1 <= j < n && #[trigger] ray_sq(s, dd, j) == data.sq_of(fi);
        data.lemma_sq_of_range(p);
        lemma_direction_ray(s, k);
        crate::board::pins::lemma_pin_direction(self, p, fi);
        assert forall|j: int| 1 <= j < n implies {
            let x = #[trigger] ray_sq(s, dd, j);
            x == f || x == v || (self.at(x) is None && x != d)
        } by {
            let x = ray_sq(s, dd, j);
            if j != j0 {
                crate::board::attacks::lemma_ray_injective(s, dd, j, j0);
                if self.at(x) is Some {
                    if self.at(x).unwrap().1 == side {
                        if j < j0 {
                            lemma_seg_two(self, s, dd, n - 1, side, j, j0);
                        } else {
                            lemma_seg_two(self, s, dd, n - 1, side, j0, j);
                        }
                    } else {
                        lemma_seg_one(self, s, dd, n - 1, side.other(), j);
                    }
                }
                if x == d {
                    lemma_line_between(s, dd, j, n);
                    lemma_line_between(s, dd, j0, n);
                    if j > j0 {
                        crate::board::attacks::lemma_ray_shift(s, dd, j0, j - j0);
                        lemma_ray_geometry(f, dd, j - j0);
                    } else {
                        crate::board::attacks::lemma_ray_shift(s, dd, j, j0 - j);
                        lemma_ray_geometry(d, dd, j0 - j);
                        crate::board::position::movegen::lemma_direction_reverse(d, f);
                    }
                }
            }
        }
        self.lemma_ep_opens_line(m, s, data.kind(p).unwrap());
    }

    /// An enemy slider whose line to the king the capturing pawn alone blocks pins it, so an
    /// en-passant capture that respects pins lands on that line, strictly between them.
    proof fn lemma_ep_pinned_case(self, m: Move, s: int, piece: Piece)
        requires
            self.rep().wf(),
            self.rep().has_king(self.turn()),
            self.generated(m),
            m.move_kind() == MoveType::EnPassant,
            self.ep_ready(),
            self.respects_pin(m.from_idx(), m.dest_idx()),
            0 <= s < 64,
            self.at(s) == Some((piece, self.turn().other())),
            piece == Piece::Bishop || piece == Piece::Rook || piece == Piece::Queen,
            strictly_between(s, m.from_idx(), self.king_at(self.turn())),
            slider_attacks(piece, s, m.from_idx(), self.rep().occupied()),
            clear_ray(
                m.from_idx(),
                direction_between(s, m.from_idx()).unwrap(),
                dist(m.from_idx(), self.king_at(self.turn())),
                self.rep().occupied(),
            ),
        ensures
            strictly_between(s, m.dest_idx(), self.king_at(self.turn())),
    {
        let f = m.from_idx();
        let d = m.dest_idx();
        let k = self.king_at(self.turn());
        let data = self.rep();
        let occ_p = data.occupied();
        Move::lemma_fields_range(m);
        self.lemma_king_square();
        let dd = direction_between(s, f).unwrap();
        lemma_between_geometry(s, f, k);
        let a = dist(s, f);
        let b = dist(s, k);
        let ps = data.slot_at(s).unwrap();
        let fi = data.slot_at(f).unwrap();
        assert(data.live(ps) && data.sq_of(ps) == s);
        assert(data.live(fi) && data.sq_of(fi) == f);
        lemma_direction_ray(s, k);
        assert(pin_line(self, ps) == Some((s, dd, b)));
        assert forall|j: int| 1 <= j < b && j != a implies (#[trigger] self.at(ray_sq(s, dd, j))) is None by {
            if j < a {
                assert(!occ_p(ray_sq(s, dd, j)));
            } else {
                lemma_ray_shift(s, dd, a, j - a);
                assert(!occ_p(ray_sq(f, dd, j - a)));
            }
        }
        lemma_sole_blocker_pinned(self, ps, fi, a);
        assert(pins_slot(self, ps, fi));
        let md = direction_between(f, d).unwrap();
        lemma_direction_ray(f, d);
        assert(dist(f, d) == 1);
        crate::board::position::legality::lemma_pin_line_move(s, f, k, d, md, 1, occ_p);
    }

    /// A pawn of the side to move and the enemy pawn it may take en passant, the only pieces
    /// between an enemy slider and the king, stop the capture.
    proof fn lemma_ep_pair_case(self, m: Move, s: int, piece: Piece)
        requires
            self.rep().wf(),
            self.rep().has_king(self.turn()),
            self.generated(m),
            m.move_kind() == MoveType::EnPassant,
            self.ep_ready(),
            0 <= s < 64,
            self.at(s) == Some((piece, self.turn().other())),
            piece == Piece::Bishop || piece == Piece::Rook || piece == Piece::Queen,
            strictly_between(s, m.from_idx(), self.king_at(self.turn())),
            strictly_between(s, self.ep_victim(), self.king_at(self.turn())),
            direction_between(s, self.king_at(self.turn())).unwrap().slides(piece),
            forall|j: int|
                1 <= j < dist(s, self.king_at(self.turn())) ==> #[trigger] ray_sq(
                    s,
                    direction_between(s, self.king_at(self.turn())).unwrap(),
                    j,
                ) == m.from_idx() || ray_sq(s, direction_between(s, self.king_at(self.turn())).unwrap(), j)
                    == self.ep_victim() || !self.rep().occupied()(
                    ray_sq(s, direction_between(s, self.king_at(self.turn())).unwrap(), j),
                ),
        ensures
            exists|p: int| ep_pins_slot(self, p, self.rep().slot_at(m.from_idx()).unwrap()),
    {
        let f = m.from_idx();
        let d = m.dest_idx();
        let v = self.ep_victim();
        let k = self.king_at(self.turn());
        let side = self.turn();
        let data = self.rep();
        Move::lemma_fields_range(m);
        self.lemma_king_square();
        crate::board::attacks::lemma_step(d, backward(side), v);
        lemma_between_geometry(s, f, k);
        lemma_between_geometry(s, v, k);
        let dd = direction_between(s, k).unwrap();
        let b = dist(s, k);
        let ps = data.slot_at(s).unwrap();
        let fi = data.slot_at(f).unwrap();
        assert(data.live(ps) && data.sq_of(ps) == s);
        assert(data.live(fi) && data.sq_of(fi) == f);
        lemma_direction_ray(s, k);
        assert(pin_line(self, ps) == Some((s, dd, b)));
        assert(sq_rank(f) == sq_rank(v));
        assert(dd == Direction::East || dd == Direction::West);
        let j0 = dist(s, f);
        let j1 = dist(s, v);
        crate::board::attacks::lemma_ray_injective(s, dd, j0, j1);
        assert forall|j: int| 1 <= j < b && j != j0 && j != j1 implies (#[trigger] self.at(ray_sq(s, dd, j))) is None by {
            if ray_sq(s, dd, j) == f {
                crate::board::attacks::lemma_ray_injective(s, dd, j, j0);
            }
            if ray_sq(s, dd, j) == v {
                crate::board::attacks::lemma_ray_injective(s, dd, j, j1);
            }
        }
        lemma_pair_ep_pinned(self, ps, fi, j0, j1);
    }

    /// An en-passant capture keeps the king safe when the en-passant square is as a double
    /// push leaves it, no check comes from anything but the pawn it takes, the capturing pawn
    /// leaves no pin line and is not held by an enemy slider along its rank, and the taken pawn
    /// shields the king from no diagonal slider.
    pub proof fn lemma_ep_safe(self, m: Move)
        requires
            self.rep().wf(),
            self.rep().has_king(self.turn()),
            self.generated(m),
            m.move_kind() == MoveType::EnPassant,
            self.ep_ready(),
            !self.ep_victim_shields(),
            forall|s: int|
                0 <= s < 64 && #[trigger] self.rep().attacker_at(s, self.king_at(self.turn()), self.turn().other())
                    ==> s == self.ep_victim(),
            self.respects_pin(m.from_idx(), m.dest_idx()),
            !(exists|p: int| ep_pins_slot(self, p, self.rep().slot_at(m.from_idx()).unwrap())),
        ensures
            self.keeps_king_safe(m),
    {
        let f = m.from_idx();
        let d = m.dest_idx();
        let v = self.ep_victim();
        let k = self.king_at(self.turn());
        let side = self.turn();
        let enemy = side.other();
        let data = self.rep();
        let occ_p = data.occupied();
        let occ_a = self.occ_after(m);
        let occ_f = |x: int| x != f && occ_p(x);
        let occ_v = |x: int| x != v && occ_p(x);
        let occ_fv = |x: int| x != f && x != v && occ_p(x);
        Move::lemma_fields_range(m);
        self.lemma_king_square();
        crate::board::attacks::lemma_step(d, backward(side), v);
        assert(self.king_after(m) == k);
        assert(k != f && k != v && k != d);
        if self.attacked_after(m, k, enemy) {
            let s = choose|s: int| 0 <= s < 64 && #[trigger] self.attacker_after(m, s, k, enemy);
            let pc = self.at_after(m, s).unwrap();
            assert(s != d && s != f && s != v);
            assert(self.at_after(m, s) == self.at(s));
            assert forall|x: int| 0 <= x < 64 && x != d implies #[trigger] occ_fv(x) == occ_a(x) by {
                if x != f && x != v {
                    assert(self.at_after(m, x) == self.at(x));
                }
            }
            assert(occ_a(d));
            assert(!occ_p(d));
            assert forall|x: int| 0 <= x < 64 && x != v implies #[trigger] occ_f(x) == occ_fv(x) by {}
            assert forall|x: int| 0 <= x < 64 && x != f implies #[trigger] occ_p(x) == occ_f(x) by {}
            assert forall|x: int| 0 <= x < 64 && x != f implies #[trigger] occ_v(x) == occ_fv(x) by {}
            assert forall|x: int| 0 <= x < 64 && x != v implies #[trigger] occ_p(x) == occ_v(x) by {}
            assert(!data.attacker_at(s, k, enemy));
            assert(pc.0 == Piece::Bishop || pc.0 == Piece::Rook || pc.0 == Piece::Queen);
            lemma_slider_through(pc.0, s, d, k, occ_fv, occ_a);
            assert(!strictly_between(s, d, k));
            assert(slider_attacks(pc.0, s, k, occ_fv));
            lemma_slider_through(pc.0, s, v, k, occ_f, occ_fv);
            lemma_slider_through(pc.0, s, f, k, occ_p, occ_f);
            lemma_slider_through(pc.0, s, f, k, occ_v, occ_fv);
            lemma_slider_through(pc.0, s, v, k, occ_p, occ_v);
            if !strictly_between(s, v, k) {
                assert(slider_attacks(pc.0, s, k, occ_f));
                assert(strictly_between(s, f, k));
                self.lemma_ep_pinned_case(m, s, pc.0);
                assert(strictly_between(s, d, k));
            } else if !strictly_between(s, f, k) {
                assert(slider_attacks(pc.0, s, k, occ_v));
                if sq_rank(v) != sq_rank(k) && sq_file(v) != sq_file(k) {
                    assert(pc.0 == Piece::Bishop || pc.0 == Piece::Queen);
                    assert(slider_attacks(pc.0, s, k, |x: int| x != v && occ_p(x)));
                    assert(self.ep_victim_shields());
                } else if sq_file(v) == sq_file(k) {
                    lemma_neighbour_between(s, v, k, d);
                } else {
                    lemma_neighbour_between(s, v, k, f);
                }
            } else {
                let dd = direction_between(s, k).unwrap();
                assert(slider_attacks(pc.0, s, k, occ_fv));
                assert forall|j: int| 1 <= j < dist(s, k) implies #[trigger] ray_sq(s, dd, j) == f || ray_sq(s, dd, j) == v
                    || !occ_p(ray_sq(s, dd, j)) by {
                    assert(!occ_fv(ray_sq(s, dd, j)));
                }
                self.lemma_ep_pair_case(m, s, pc.0);
            }
        }
    }

    /// A move from `f` to `d` keeps a pinned piece on `f` on the line to its king.
    pub open spec fn respects_pin(self, f: int, d: int) -> bool {
        (exists|p: int| pins_slot(self, p, self.rep().slot_at(f).unwrap())) ==> ({
            let kd = direction_between(f, self.king_at(self.turn())).unwrap();
            direction_between(f, d) matches Some(md) && ((md.dr() == kd.dr() && md.df() == kd.df()) || (md.dr()
                == -kd.dr() && md.df() == -kd.df()))
        })
    }

    /// Every move that `after` adds to `before` is en passant, castling, or keeps the king
    /// safe.
    pub open spec fn adds_safe(self, before: Seq<Move>, after: Seq<Move>) -> bool {
        forall|i: int| before.len() <= i < after.len() ==> #[trigger] self.safe_or_special(after[i])
    }

    /// Adding safe moves to a list that only gained safe moves gains only safe moves.
    pub proof fn lemma_adds_safe_trans(self, a: Seq<Move>, b: Seq<Move>, c: Seq<Move>)
        requires
            self.extends(a, b),
            self.extends(b, c),
            self.adds_safe(a, b),
            self.adds_safe(b, c),
        ensures
            self.adds_safe(a, c),
    {
        assert forall|i: int| a.len() <= i < c.len() implies #[trigger] self.safe_or_special(c[i]) by {
            if i < b.len() {
                assert(c.subrange(0, b.len() as int)[i] == b[i]);
            }
        }
    }
}

impl Board {
    /// Which squares hold a piece once `m` is played.
    pub open spec fn occ_after(self, m: Move) -> spec_fn(int) -> bool {
        |s: int| self.at_after(m, s) is Some
    }

    /// True if, once `m` is played, the piece on `s` has colour `colour` and attacks `t`.
    pub open spec fn attacker_after(self, m: Move, s: int, t: int, colour: Colour) -> bool {
        match self.at_after(m, s) {
            Some(pc) => pc.1 == colour && attacks(pc.0, colour, s, t, self.occ_after(m)),
            None => false,
        }
    }

    /// True if, once `m` is played, a piece of `colour` attacks square `t`.
    pub open spec fn attacked_after(self, m: Move, t: int, colour: Colour) -> bool {
        exists|s: int| 0 <= s < 64 && #[trigger] self.attacker_after(m, s, t, colour)
    }

    /// The square of the king of the side to move once `m` is played.
    pub open spec fn king_after(self, m: Move) -> int {
        if m.from_idx() == self.king_at(self.turn()) {
            m.dest_idx()
        } else {
            self.king_at(self.turn())
        }
    }

    /// True if `m` leaves the king of the side to move unattacked.
    pub open spec fn keeps_king_safe(self, m: Move) -> bool {
        !self.attacked_after(m, self.king_after(m), self.turn().other())
    }

    /// A move other than en passant and castling that the rules of movement allow, in a
    /// direction along a line, passes over empty squares only.
    proof fn lemma_path_clear(self, m: Move)
        requires
            self.rep().wf(),
            self.movable(m.from_idx(), m.dest_idx(), m.move_kind()),
            m.move_kind() != MoveType::EnPassant,
            m.move_kind() != MoveType::KingsideCastle,
            m.move_kind() != MoveType::QueensideCastle,
            direction_between(m.from_idx(), m.dest_idx()) is Some,
        ensures
            ({
                let md = direction_between(m.from_idx(), m.dest_idx()).unwrap();
                forall|j: int|
                    1 <= j < dist(m.from_idx(), m.dest_idx()) ==> !(self.rep().occupied())(
                        #[trigger] ray_sq(m.from_idx(), md, j),
                    )
            }),
    {
        let f = m.from_idx();
        let d = m.dest_idx();
        let md = direction_between(f, d).unwrap();
        lemma_direction_ray(f, d);
        let pc = self.at(f).unwrap();
        let kind = m.move_kind();
        if kind == MoveType::DoublePush {
            let mid = step(f, forward(self.turn())).unwrap();
            crate::board::attacks::lemma_step(f, forward(self.turn()), mid);
            crate::board::attacks::lemma_step(mid, forward(self.turn()), d);
            assert forall|j: int| 1 <= j < dist(f, d) implies !(self.rep().occupied())(
                #[trigger] ray_sq(f, md, j),
            ) by {
                assert(j == 1);
                assert(ray_sq(f, md, 1) == mid);
                assert(self.at(mid) is None);
            }
        } else if pc.0 == Piece::Bishop || pc.0 == Piece::Rook || pc.0 == Piece::Queen {
            assert(attacks(pc.0, self.turn(), f, d, self.rep().occupied()));
            assert(clear_ray(f, md, dist(f, d), self.rep().occupied()));
        } else if pc.0 == Piece::Pawn && !kind.captures() {
            crate::board::attacks::lemma_step(f, forward(self.turn()), d);
        }
    }
}


impl Board {
    /// Squares holding the pieces of the side to move: at most the king stands on its king
    /// square, and the destination of a capture or a quiet move holds no piece of the side to
    /// move.
    pub proof fn lemma_king_square(self)
        requires
            self.rep().wf(),
            self.rep().has_king(self.turn()),
        ensures
            0 <= self.king_at(self.turn()) < 64,
            self.at(self.king_at(self.turn())) == Some((Piece::King, self.turn())),
    {
        let d = self.rep();
        let i = d.king_slot(self.turn());
        let w = choose|i: int| #[trigger] d.is_king_of(i, self.turn());
        crate::board::position::lemma_lowest_king(d, self.turn(), 32);
        d.lemma_sq_of_range(i);
        assert(d.slot_at(d.sq_of(i)) == Some(i));
    }

    /// A move that is not the king's, nor en passant or castling, keeps the king safe when it
    /// answers every check and a pinned piece keeps to the line of its pin.
    #[verifier::spinoff_prover]
    #[verifier::rlimit(40)]
    pub proof fn lemma_pin_respecting_move_safe(self, m: Move)
        requires
            self.rep().wf(),
            self.rep().has_king(self.turn()),
            self.answers_checks(m.from_idx(), m.dest_idx()),
            self.generated(m),
            m.move_kind() != MoveType::EnPassant,
            m.move_kind() != MoveType::KingsideCastle,
            m.move_kind() != MoveType::QueensideCastle,
            m.from_idx() != self.king_at(self.turn()),
            (exists|p: int| pins_slot(self, p, self.rep().slot_at(m.from_idx()).unwrap())) ==> ({
                let kd = direction_between(m.from_idx(), self.king_at(self.turn())).unwrap();
                direction_between(m.from_idx(), m.dest_idx()) matches Some(md) && ((md.dr() == kd.dr()
                    && md.df() == kd.df()) || (md.dr() == -kd.dr() && md.df() == -kd.df()))
            }),
        ensures
            self.keeps_king_safe(m),
    {
        let f = m.from_idx();
        let d = m.dest_idx();
        let k = self.king_at(self.turn());
        let side = self.turn();
        let enemy = side.other();
        let data = self.rep();
        let occ_p = data.occupied();
        let occ_a = self.occ_after(m);
        let occ_m = |x: int| x != f && occ_p(x);
        Move::lemma_fields_range(m);
        self.lemma_king_square();
        assert(self.king_after(m) == k);
        if self.attacked_after(m, k, enemy) {
            let s = choose|s: int| 0 <= s < 64 && #[trigger] self.attacker_after(m, s, k, enemy);
            let pc = self.at_after(m, s).unwrap();
            assert(s != d);
            assert(s != f);
            assert(self.at_after(m, s) == self.at(s));
            assert forall|x: int| 0 <= x < 64 && x != d implies #[trigger] occ_m(x) == occ_a(x) by {
                if x != f {
                    assert(self.at_after(m, x) == self.at(x));
                }
            }
            assert forall|x: int| 0 <= x < 64 && x != f implies #[trigger] occ_p(x) == occ_m(x) by {}
            assert(occ_a(d));
            if data.attacker_at(s, k, enemy) {
                // A checking piece: the move lands strictly between it and the king.
                assert(strictly_between(s, d, k));
                lemma_between_geometry(s, d, k);
                if pc.0 == Piece::Bishop || pc.0 == Piece::Rook || pc.0 == Piece::Queen {
                    lemma_slider_through(pc.0, s, d, k, occ_m, occ_a);
                }
            } else if pc.0 == Piece::Bishop || pc.0 == Piece::Rook || pc.0 == Piece::Queen {
                lemma_slider_through(pc.0, s, d, k, occ_m, occ_a);
                lemma_slider_through(pc.0, s, f, k, occ_p, occ_m);
                assert(!strictly_between(s, d, k));
                assert(strictly_between(s, f, k));
                let dd = direction_between(s, f).unwrap();
                lemma_between_geometry(s, f, k);
                let a = dist(s, f);
                let b = dist(s, k);
                assert(slider_attacks(pc.0, s, f, occ_p));
                assert(clear_ray(f, dd, dist(f, k), occ_p));
                // The piece on `f` is the only piece between the slider on `s` and the king.
                let ps = data.slot_at(s).unwrap();
                let fi = data.slot_at(f).unwrap();
                assert(data.live(ps) && data.sq_of(ps) == s);
                assert(data.live(fi) && data.sq_of(fi) == f);
                lemma_direction_ray(s, k);
                assert(pin_line(self, ps) == Some((s, dd, b)));
                assert forall|j: int| 1 <= j < b && j != a implies (#[trigger] self.at(ray_sq(s, dd, j))) is None by {
                    if j < a {
                        assert(!occ_p(ray_sq(s, dd, j)));
                    } else {
                        lemma_ray_shift(s, dd, a, j - a);
                        assert(!occ_p(ray_sq(f, dd, j - a)));
                    }
                }
                lemma_sole_blocker_pinned(self, ps, fi, a);
                assert(pins_slot(self, ps, fi));
                let md = direction_between(f, d).unwrap();
                self.lemma_path_clear(m);
                lemma_direction_ray(f, d);
                crate::board::position::movegen::lemma_ray_reverse(f, d, 0);
                crate::board::position::legality::lemma_pin_line_move(s, f, k, d, md, dist(f, d), occ_p);
            }
        }
    }
}


impl Board {
    /// A step of the king, other than castling, that answers every check keeps the king safe.
    pub proof fn lemma_king_step_safe(self, m: Move)
        requires
            self.rep().wf(),
            self.rep().has_king(self.turn()),
            self.generated(m),
            m.move_kind() != MoveType::EnPassant,
            m.move_kind() != MoveType::KingsideCastle,
            m.move_kind() != MoveType::QueensideCastle,
            m.from_idx() == self.king_at(self.turn()),
            self.answers_checks(m.from_idx(), m.dest_idx()),
        ensures
            self.keeps_king_safe(m),
    {
        let f = m.from_idx();
        let d = m.dest_idx();
        let side = self.turn();
        let enemy = side.other();
        let data = self.rep();
        let occ_p = data.occupied();
        let occ_a = self.occ_after(m);
        let occ_m = |x: int| x != f && occ_p(x);
        Move::lemma_fields_range(m);
        self.lemma_king_square();
        assert(self.king_after(m) == d);
        assert(m.move_kind().promotion() is None);
        if self.attacked_after(m, d, enemy) {
            let s = choose|s: int| 0 <= s < 64 && #[trigger] self.attacker_after(m, s, d, enemy);
            let pc = self.at_after(m, s).unwrap();
            assert(s != d);
            assert(s != f);
            assert(self.at_after(m, s) == self.at(s));
            assert(!data.attacker_at(s, d, enemy));
            assert forall|x: int| 0 <= x < 64 && x != d implies #[trigger] occ_m(x) == occ_a(x) by {
                if x != f {
                    assert(self.at_after(m, x) == self.at(x));
                }
            }
            assert forall|x: int| 0 <= x < 64 && x != f implies #[trigger] occ_p(x) == occ_m(x) by {}
            if pc.0 == Piece::Bishop || pc.0 == Piece::Rook || pc.0 == Piece::Queen {
                lemma_slider_through(pc.0, s, d, d, occ_m, occ_a);
                lemma_slider_through(pc.0, s, f, d, occ_p, occ_m);
                assert(strictly_between(s, f, d));
                assert(data.attacker_at(s, f, enemy));
            }
        }
    }
}

impl Board {
    /// A move that keeps the king safe, other than en passant and castling, leads to a
    /// position in which the mover's king stands on `king_after` and no piece of the side now
    /// to move attacks it.
    pub proof fn lemma_made_safe(self, m: Move, child: Board)
        requires
            self.rep().wf(),
            self.rep().has_king(self.turn()),
            self.generated(m),
            m.move_kind() != MoveType::EnPassant,
            m.move_kind() != MoveType::KingsideCastle,
            m.move_kind() != MoveType::QueensideCastle,
            self.keeps_king_safe(m),
            self.made(m, child),
        ensures
            child.at(self.king_after(m)) == Some((Piece::King, self.turn())),
            !child.rep().attacked_by(self.king_after(m), child.turn()),
    {
        let kk = self.king_after(m);
        let enemy = self.turn().other();
        Move::lemma_fields_range(m);
        self.lemma_king_square();
        if m.from_idx() == self.king_at(self.turn()) {
            assert(m.move_kind().promotion() is None);
        }
        assert(child.at(kk) == self.at_after(m, kk));
        if child.rep().attacked_by(kk, enemy) {
            let s = choose|s: int| 0 <= s < 64 && #[trigger] child.rep().attacker_at(s, kk, enemy);
            let pc = child.at(s).unwrap();
            assert(child.at(s) == self.at_after(m, s));
            let occ_c = child.rep().occupied();
            let occ_a = self.occ_after(m);
            assert forall|x: int| 0 <= x < 64 implies #[trigger] occ_c(x) == occ_a(x) by {
                assert(child.at(x) == self.at_after(m, x));
            }
            if pc.0.is_slider() {
                lemma_slider_through(pc.0, s, s, kk, occ_c, occ_a);
            }
            assert(self.attacker_after(m, s, kk, enemy));
        }
    }
}

impl Board {
    /// A king step to a square that an enemy piece attacks does not keep the king safe: the
    /// king leaving its square only opens lines.
    pub proof fn lemma_king_step_attacked(self, m: Move)
        requires
            self.rep().wf(),
            self.rep().has_king(self.turn()),
            self.generated(m),
            m.move_kind() != MoveType::EnPassant,
            m.move_kind() != MoveType::KingsideCastle,
            m.move_kind() != MoveType::QueensideCastle,
            m.from_idx() == self.king_at(self.turn()),
            self.rep().attacked_by(m.dest_idx(), self.turn().other()),
        ensures
            !self.keeps_king_safe(m),
    {
        let f = m.from_idx();
        let d = m.dest_idx();
        let enemy = self.turn().other();
        let data = self.rep();
        let occ_p = data.occupied();
        let occ_a = self.occ_after(m);
        let occ_m = |x: int| x != f && occ_p(x);
        Move::lemma_fields_range(m);
        self.lemma_king_square();
        assert(self.king_after(m) == d);
        assert(m.move_kind().promotion() is None);
        let s = choose|s: int| 0 <= s < 64 && #[trigger] data.attacker_at(s, d, enemy);
        assert(s != f);
        if s == d {
            assert(data.attacker_at(d, d, enemy));
            assert(false) by {
                let pc = self.at(d).unwrap();
                if pc.0.is_slider() {
                    assert(direction_between(d, d) is None);
                }
            }
        }
        assert(self.at_after(m, s) == self.at(s));
        assert forall|x: int| 0 <= x < 64 && x != d implies #[trigger] occ_m(x) == occ_a(x) by {
            if x != f {
                assert(self.at_after(m, x) == self.at(x));
            }
        }
        assert forall|x: int| 0 <= x < 64 && x != f implies #[trigger] occ_p(x) == occ_m(x) by {}
        let pc = self.at(s).unwrap();
        if pc.0.is_slider() {
            lemma_slider_through(pc.0, s, f, d, occ_p, occ_m);
            lemma_slider_through(pc.0, s, d, d, occ_m, occ_a);
        }
        assert(self.attacker_after(m, s, d, enemy));
    }

    /// A king step to the square beyond the king, seen from a checking slider, does not keep
    /// the king safe: the slider's line runs on through the square the king left.
    pub proof fn lemma_king_step_xray(self, m: Move, s: int)
        requires
            self.rep().wf(),
            self.rep().has_king(self.turn()),
            self.generated(m),
            m.move_kind() != MoveType::EnPassant,
            m.move_kind() != MoveType::KingsideCastle,
            m.move_kind() != MoveType::QueensideCastle,
            m.from_idx() == self.king_at(self.turn()),
            0 <= s < 64,
            self.rep().attacker_at(s, self.king_at(self.turn()), self.turn().other()),
            self.at(s).unwrap().0.is_slider(),
            direction_between(s, self.king_at(self.turn())) matches Some(dd) && step(
                self.king_at(self.turn()),
                dd,
            ) == Some(m.dest_idx()),
        ensures
            !self.keeps_king_safe(m),
    {
        let f = m.from_idx();
        let d = m.dest_idx();
        let k = f;
        let enemy = self.turn().other();
        let data = self.rep();
        let occ_p = data.occupied();
        let occ_a = self.occ_after(m);
        let occ_m = |x: int| x != f && occ_p(x);
        Move::lemma_fields_range(m);
        self.lemma_king_square();
        assert(self.king_after(m) == d);
        assert(m.move_kind().promotion() is None);
        let dd = direction_between(s, k).unwrap();
        let pc = self.at(s).unwrap();
        lemma_direction_ray(s, k);
        crate::board::attacks::lemma_step(k, dd, d);
        assert(strictly_between(s, k, d)) by {
            lemma_direction_ray(k, d);
        }
        lemma_between_geometry(s, k, d);
        assert(s != d);
        assert(s != f);
        assert(self.at_after(m, s) == self.at(s));
        assert forall|x: int| 0 <= x < 64 && x != d implies #[trigger] occ_m(x) == occ_a(x) by {
            if x != f {
                assert(self.at_after(m, x) == self.at(x));
            }
        }
        assert forall|x: int| 0 <= x < 64 && x != f implies #[trigger] occ_p(x) == occ_m(x) by {}
        // The slider still reaches the king's old square, which is now empty, and the square
        // beyond it is one step on.
        lemma_slider_through(pc.0, s, k, k, occ_p, occ_m);
        lemma_slider_through(pc.0, s, k, d, occ_m, occ_m);
        assert(clear_ray(k, dd, dist(k, d), occ_m));
        lemma_slider_through(pc.0, s, d, d, occ_m, occ_a);
        assert(self.attacker_after(m, s, d, enemy));
    }
}

/// True if `v` holds a move from `f` to `d` of kind `kind`.
pub open spec fn lists(v: Seq<Move>, f: int, d: int, kind: MoveType) -> bool {
    exists|j: int|
        0 <= j < v.len() && (#[trigger] v[j]).from_idx() == f && v[j].dest_idx() == d && v[j].move_kind()
            == kind
}

impl Board {
    /// True if `m` is a step of the king of the side to move, other than castling, that keeps
    /// the king safe.
    pub open spec fn safe_king_step(self, m: Move) -> bool {
        &&& self.generated(m)
        &&& m.from_idx() == self.king_at(self.turn())
        &&& m.move_kind() != MoveType::EnPassant
        &&& m.move_kind() != MoveType::KingsideCastle
        &&& m.move_kind() != MoveType::QueensideCastle
        &&& self.keeps_king_safe(m)
    }

    /// True if `v`, unless it has filled up to its capacity of 256 moves, holds every king step
    /// that keeps the king safe.
    pub open spec fn lists_all_king_steps(self, v: Seq<Move>) -> bool {
        v.len() < 256 ==> forall|m: Move|
            #[trigger] self.safe_king_step(m) ==> lists(v, m.from_idx(), m.dest_idx(), m.move_kind())
    }

    /// True if `v`, unless it has filled up to its capacity of 256 moves, holds every king step
    /// that keeps the king safe, leaving aside captures of a piece that gives check.
    pub open spec fn lists_king_steps(self, v: Seq<Move>) -> bool {
        v.len() < 256 ==> forall|m: Move|
            #[trigger] self.safe_king_step(m) && !self.rep().attacker_at(
                m.dest_idx(),
                self.king_at(self.turn()),
                self.turn().other(),
            ) ==> lists(v, m.from_idx(), m.dest_idx(), m.move_kind())
    }
}

/// Directions with the same offsets are the same direction.
pub proof fn lemma_direction_offsets(a: Direction, b: Direction)
    requires
        a.dr() == b.dr(),
        a.df() == b.df(),
    ensures
        a == b,
{
}

impl Board {
    /// A pinned piece that moves off the line of its pin, other than by en passant or
    /// castling, leaves its king to the pinning slider.
    #[verifier::spinoff_prover]
    #[verifier::rlimit(40)]
    pub proof fn lemma_pinned_off_line(self, m: Move, p: int)
        requires
            self.rep().wf(),
            self.rep().has_king(self.turn()),
            self.generated(m),
            m.move_kind() != MoveType::EnPassant,
            m.move_kind() != MoveType::KingsideCastle,
            m.move_kind() != MoveType::QueensideCastle,
            self.rep().slot_at(m.from_idx()) is Some,
            pins_slot(self, p, self.rep().slot_at(m.from_idx()).unwrap()),
            !(direction_between(m.from_idx(), m.dest_idx()) matches Some(md) && ({
                let dir = pin_line(self, p).unwrap().1;
                (md.dr() == dir.dr() && md.df() == dir.df()) || (md.dr() == -dir.dr() && md.df() == -dir.df())
            })),
        ensures
            !self.keeps_king_safe(m),
    {
        let data = self.rep();
        let f = m.from_idx();
        let d = m.dest_idx();
        let i = data.slot_at(f).unwrap();
        let k = self.king_at(self.turn());
        let side = self.turn();
        let enemy = side.other();
        let (ps, dir, n) = pin_line(self, p).unwrap();
        Move::lemma_fields_range(m);
        self.lemma_king_square();
        data.lemma_sq_of_range(p);
        assert(data.sq_of(i) == f);
        let j = choose|j: int| 1 <= j < n && #[trigger] ray_sq(ps, dir, j) == data.sq_of(i);
        lemma_direction_ray(ps, k);
        lemma_line_between(ps, dir, j, n);
        lemma_between_geometry(ps, f, k);
        assert(f != k);
        assert(self.king_after(m) == k);
        // Every other square of the line is empty.
        assert forall|t: int| 1 <= t < n && t != j implies (#[trigger] self.at(ray_sq(ps, dir, t))) is None by {
            crate::board::attacks::lemma_ray_injective(ps, dir, t, j);
            if self.at(ray_sq(ps, dir, t)) is Some {
                if self.at(ray_sq(ps, dir, t)).unwrap().1 == side {
                    if t < j {
                        crate::board::pins::lemma_seg_two(self, ps, dir, n - 1, side, t, j);
                    } else {
                        crate::board::pins::lemma_seg_two(self, ps, dir, n - 1, side, j, t);
                    }
                } else {
                    crate::board::pins::lemma_seg_one(self, ps, dir, n - 1, enemy, t);
                }
            }
        }
        // The move lands neither on the line nor on the slider.
        assert forall|t: int| 0 <= t < n && t != j implies #[trigger] ray_sq(ps, dir, t) != d by {
            if ray_sq(ps, dir, t) == d {
                if t > j {
                    lemma_line_between(ps, dir, j, t);
                    lemma_between_geometry(ps, f, d);
                } else if t >= 1 {
                    lemma_line_between(ps, dir, t, j);
                    lemma_between_geometry(ps, d, f);
                    crate::board::position::movegen::lemma_direction_reverse(d, f);
                } else {
                    assert(ray_sq(ps, dir, 0) == ps) by {
                        crate::board::attacks::lemma_sq_at(crate::square::sq_rank(ps), crate::square::sq_file(ps));
                    }
                    crate::board::position::movegen::lemma_direction_reverse(ps, f);
                }
            }
        }
        assert(ray_sq(ps, dir, 0) == ps) by {
            crate::board::attacks::lemma_sq_at(crate::square::sq_rank(ps), crate::square::sq_file(ps));
        }
        assert(ps != f) by {
            crate::board::attacks::lemma_ray_injective(ps, dir, 0, j);
        }
        assert(ps != d);
        assert(self.at_after(m, ps) == self.at(ps));
        let occ_a = self.occ_after(m);
        assert forall|t: int| 1 <= t < dist(ps, k) implies !occ_a(#[trigger] ray_sq(ps, dir, t)) by {
            if t != j {
                crate::board::attacks::lemma_ray_injective(ps, dir, t, j);
                assert(self.at_after(m, ray_sq(ps, dir, t)) == self.at(ray_sq(ps, dir, t)));
            }
        }
        assert(clear_ray(ps, dir, dist(ps, k), occ_a));
        assert(self.attacker_after(m, ps, k, enemy));
    }
}

/// A list keeps the moves it lists when moves are appended to it.
pub proof fn lemma_lists_extend(a: Seq<Move>, b: Seq<Move>, f: int, d: int, kind: MoveType)
    requires
        a.len() <= b.len(),
        b.subrange(0, a.len() as int) == a,
        lists(a, f, d, kind),
    ensures
        lists(b, f, d, kind),
{
    let j = choose|j: int|
        0 <= j < a.len() && (#[trigger] a[j]).from_idx() == f && a[j].dest_idx() == d && a[j].move_kind() == kind;
    assert(b[j] == b.subrange(0, a.len() as int)[j]);
}

/// True if square `d` is where a double push of a pawn of `colour` lands.
pub open spec fn fourth_rank(colour: Colour, d: int) -> bool {
    crate::square::sq_rank(d) == if colour == Colour::White {
        3int
    } else {
        4int
    }
}

/// True if square `d` is on the last rank for pawns of `colour`.
pub open spec fn last_rank(colour: Colour, d: int) -> bool {
    crate::square::sq_rank(d) == if colour == Colour::White {
        7int
    } else {
        0int
    }
}

impl Board {
    /// True if `m` is a move of the side to move, other than en passant and castling, that
    /// keeps its king safe, is not made by a second king, promotes exactly when a pawn
    /// reaches the last rank, and pushes a pawn two squares only from its starting rank.
    pub open spec fn sound_move(self, m: Move) -> bool {
        &&& self.generated(m)
        &&& m.move_kind() != MoveType::EnPassant
        &&& m.move_kind() != MoveType::KingsideCastle
        &&& m.move_kind() != MoveType::QueensideCastle
        &&& self.keeps_king_safe(m)
        &&& self.at(m.from_idx()).unwrap().0 == Piece::King ==> m.from_idx() == self.king_at(self.turn())
        &&& self.at(m.from_idx()).unwrap().0 == Piece::Pawn ==> (m.move_kind().promotes() <==> last_rank(
            self.turn(),
            m.dest_idx(),
        ))
        &&& m.move_kind() == MoveType::DoublePush ==> fourth_rank(self.turn(), m.dest_idx())
    }

    /// True if `v`, unless it has filled up to its capacity of 256 moves, holds every sound
    /// move that captures nothing.
    pub open spec fn lists_quiet(self, v: Seq<Move>) -> bool {
        v.len() < 256 ==> forall|m: Move|
            #[trigger] self.sound_move(m) && !m.move_kind().captures() ==> lists(
                v,
                m.from_idx(),
                m.dest_idx(),
                m.move_kind(),
            )
    }

    /// True if `v`, unless it has filled up to its capacity of 256 moves, holds every sound
    /// capture onto square `d`.
    pub open spec fn lists_captures_on(self, v: Seq<Move>, d: int) -> bool {
        v.len() < 256 ==> forall|m: Move|
            #[trigger] self.sound_move(m) && m.move_kind().captures() && m.dest_idx() == d ==> lists(
                v,
                m.from_idx(),
                m.dest_idx(),
                m.move_kind(),
            )
    }

    /// True if `v`, unless it has filled up to its capacity of 256 moves, holds every sound
    /// capture of a piece other than a king.
    pub open spec fn lists_captures(self, v: Seq<Move>) -> bool {
        v.len() < 256 ==> forall|m: Move|
            #[trigger] self.sound_move(m) && m.move_kind().captures() && self.at(m.dest_idx()).unwrap().0
                != Piece::King ==> lists(v, m.from_idx(), m.dest_idx(), m.move_kind())
    }
}

impl Board {
    /// A move of a piece other than the king, other than en passant and castling, that
    /// neither takes the piece on `s` checking the king nor lands strictly between it and the
    /// king leaves that piece giving check.
    pub proof fn lemma_check_stays(self, m: Move, s: int)
        requires
            self.rep().wf(),
            self.rep().has_king(self.turn()),
            self.generated(m),
            m.move_kind() != MoveType::EnPassant,
            m.move_kind() != MoveType::KingsideCastle,
            m.move_kind() != MoveType::QueensideCastle,
            m.from_idx() != self.king_at(self.turn()),
            0 <= s < 64,
            self.rep().attacker_at(s, self.king_at(self.turn()), self.turn().other()),
            s != m.dest_idx(),
            !strictly_between(s, m.dest_idx(), self.king_at(self.turn())),
        ensures
            !self.keeps_king_safe(m),
    {
        let f = m.from_idx();
        let d = m.dest_idx();
        let k = self.king_at(self.turn());
        let enemy = self.turn().other();
        let data = self.rep();
        let occ_p = data.occupied();
        let occ_a = self.occ_after(m);
        let occ_m = |x: int| x != f && occ_p(x);
        Move::lemma_fields_range(m);
        self.lemma_king_square();
        assert(self.king_after(m) == k);
        assert(s != f);
        assert(self.at_after(m, s) == self.at(s));
        assert forall|x: int| 0 <= x < 64 && x != d implies #[trigger] occ_m(x) == occ_a(x) by {
            if x != f {
                assert(self.at_after(m, x) == self.at(x));
            }
        }
        assert forall|x: int| 0 <= x < 64 && x != f implies #[trigger] occ_p(x) == occ_m(x) by {}
        let pc = self.at(s).unwrap();
        if pc.0.is_slider() {
            lemma_slider_through(pc.0, s, f, k, occ_p, occ_m);
            lemma_slider_through(pc.0, s, d, k, occ_m, occ_a);
        }
        assert(self.attacker_after(m, s, k, enemy));
    }
}

impl Board {
    /// True if `v`, unless it has filled up to its capacity of 256 moves, holds every sound
    /// move that does not take a king.
    pub open spec fn lists_replies(self, v: Seq<Move>) -> bool {
        v.len() < 256 ==> forall|m: Move|
            #[trigger] self.sound_move(m) && !(self.at(m.dest_idx()) matches Some(pc) && pc.0 == Piece::King)
                ==> lists(v, m.from_idx(), m.dest_idx(), m.move_kind())
    }

    /// True if `v`, unless it has filled up to its capacity of 256 moves, holds every sound
    /// move.
    pub open spec fn lists_moves(self, v: Seq<Move>) -> bool {
        v.len() < 256 ==> forall|m: Move|
            #[trigger] self.sound_move(m) ==> lists(v, m.from_idx(), m.dest_idx(), m.move_kind())
    }

    /// A square strictly between a checking piece and the king is empty, and the checking
    /// piece is a slider.
    pub proof fn lemma_between_checker(self, a: int, d: int)
        requires
            self.rep().wf(),
            0 <= a < 64,
            0 <= d < 64,
            0 <= self.king_at(self.turn()) < 64,
            self.rep().attacker_at(a, self.king_at(self.turn()), self.turn().other()),
            strictly_between(a, d, self.king_at(self.turn())),
        ensures
            self.at(a).unwrap().0.is_slider(),
            self.at(d) is None,
    {
        let k = self.king_at(self.turn());
        lemma_between_geometry(a, d, k);
        let pc = self.at(a).unwrap();
        if pc.0.is_slider() {
            assert(clear_ray(a, direction_between(a, k).unwrap(), dist(a, k), self.rep().occupied()));
            assert(!(self.rep().occupied())(ray_sq(a, direction_between(a, k).unwrap(), dist(a, d))));
        }
    }
}

impl Board {
    /// Two squares that reach the king by the same number of steps in the same direction are
    /// the same square.
    proof fn lemma_same_start(x: int, y: int, dd: Direction, n: int, k: int)
        requires
            0 <= x < 64,
            0 <= y < 64,
            is_queen_dir(dd),
            ray_sq(x, dd, n) == k,
            ray_sq(y, dd, n) == k,
            ray_on(x, dd, n),
            ray_on(y, dd, n),
        ensures
            x == y,
    {
        crate::board::attacks::lemma_sq_at(
            crate::square::sq_rank(x) + crate::board::attacks::scale(n, dd.dr()),
            crate::square::sq_file(x) + crate::board::attacks::scale(n, dd.df()),
        );
        crate::board::attacks::lemma_sq_at(
            crate::square::sq_rank(y) + crate::board::attacks::scale(n, dd.dr()),
            crate::square::sq_file(y) + crate::board::attacks::scale(n, dd.df()),
        );
    }

    /// A square on the line of a checking piece, nearer the king than it, is empty.
    #[verifier::spinoff_prover]
    proof fn lemma_checker_behind(self, far: int, near: int)
        requires
            self.rep().wf(),
            0 <= far < 64,
            0 <= near < 64,
            0 <= self.king_at(self.turn()) < 64,
            self.rep().attacker_at(far, self.king_at(self.turn()), self.turn().other()),
            direction_between(far, self.king_at(self.turn())) is Some,
            direction_between(far, self.king_at(self.turn())) == direction_between(near, self.king_at(self.turn())),
            dist(near, self.king_at(self.turn())) < dist(far, self.king_at(self.turn())),
        ensures
            self.at(near) is None,
    {
        let k = self.king_at(self.turn());
        let dd = direction_between(far, k).unwrap();
        lemma_direction_ray(far, k);
        lemma_direction_ray(near, k);
        let n1 = dist(near, k);
        let n2 = dist(far, k);
        lemma_ray_shift(far, dd, n2 - n1, n1);
        let q = ray_sq(far, dd, n2 - n1);
        lemma_ray_geometry(far, dd, n2 - n1);
        Self::lemma_same_start(q, near, dd, n1, k);
        lemma_line_between(far, dd, n2 - n1, n2);
        self.lemma_between_checker(far, near);
    }

    /// With two different pieces giving check, no move of another piece keeps the king safe.
    #[verifier::spinoff_prover]
    pub proof fn lemma_double_check_king_only(self, m: Move, s1: int, s2: int)
        requires
            self.rep().wf(),
            self.rep().has_king(self.turn()),
            self.generated(m),
            m.move_kind() != MoveType::EnPassant,
            m.move_kind() != MoveType::KingsideCastle,
            m.move_kind() != MoveType::QueensideCastle,
            m.from_idx() != self.king_at(self.turn()),
            0 <= s1 < 64,
            0 <= s2 < 64,
            s1 != s2,
            self.rep().attacker_at(s1, self.king_at(self.turn()), self.turn().other()),
            self.rep().attacker_at(s2, self.king_at(self.turn()), self.turn().other()),
        ensures
            !self.keeps_king_safe(m),
    {
        let d = m.dest_idx();
        let k = self.king_at(self.turn());
        Move::lemma_fields_range(m);
        self.lemma_king_square();
        if self.keeps_king_safe(m) {
            if d != s1 && !strictly_between(s1, d, k) {
                self.lemma_check_stays(m, s1);
            }
            if d != s2 && !strictly_between(s2, d, k) {
                self.lemma_check_stays(m, s2);
            }
            if d == s1 {
                self.lemma_between_checker(s2, s1);
            } else if d == s2 {
                self.lemma_between_checker(s1, s2);
            } else {
                lemma_between_geometry(s1, d, k);
                lemma_between_geometry(s2, d, k);
                lemma_direction_ray(s1, k);
                lemma_direction_ray(s2, k);
                if dist(s1, k) == dist(s2, k) {
                    Self::lemma_same_start(s1, s2, direction_between(s1, k).unwrap(), dist(s1, k), k);
                } else if dist(s1, k) < dist(s2, k) {
                    self.lemma_checker_behind(s2, s1);
                } else {
                    self.lemma_checker_behind(s1, s2);
                }
            }
        }
    }
}

} // verus!
