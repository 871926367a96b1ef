//! Standard algebraic notation.
use vstd::prelude::*;

use crate::board::index::PieceIndex;
use crate::board::data::BoardData;
use crate::board::movelist::{list_get, list_len, moves_of, new_list};
use crate::board::position::Board;
use crate::chessmove::{Move, MoveType};
use crate::colour::Colour;
use crate::piece::Piece;
use crate::square::{Square, forward, sq_file, sq_rank, step};
use colored::Colorize;
use vstd::string::StringExecFns;

verus! {

broadcast use {Square::lemma_index_range, PieceIndex::lemma_index_range, BoardData::lemma_sq_of_range};

/// `String::push`: append `c`.
#[verifier::external_body]
fn push_char(s: &mut String, c: char)
    ensures
        final(s)@ == old(s)@.push(c),
{
    s.push(c);
}

/// Formatting `Colorize::bright_white` of `san`, then a space: the text in bright white when the
/// terminal takes colours, as it is otherwise. The text holds no escape character, so the
/// colouring finds no reset sequence inside it to repeat the colour after. Which of the two comes out depends on the
/// environment the program runs in.
#[verifier::external_body]
fn bright_white_word(san: &str) -> (r: String)
    requires
        no_escape(san@),
    ensures
        r@ == san@ + seq![' '] || r@ == seq!['\u{1b}', '[', '9', '7', 'm'] + san@ + seq![
            '\u{1b}',
            '[',
            '0',
            'm',
            ' ',
        ],
{
    format!("{} ", san.bright_white())
}

/// Formatting `Colorize::bright_black` of `san`, then a space: the text in bright black when the
/// terminal takes colours, as it is otherwise. The text holds no escape character, so the
/// colouring finds no reset sequence inside it to repeat the colour after. Which of the two comes out depends on the
/// environment the program runs in.
#[verifier::external_body]
fn bright_black_word(san: &str) -> (r: String)
    requires
        no_escape(san@),
    ensures
        r@ == san@ + seq![' '] || r@ == seq!['\u{1b}', '[', '9', '0', 'm'] + san@ + seq![
            '\u{1b}',
            '[',
            '0',
            'm',
            ' ',
        ],
{
    format!("{} ", san.bright_black())
}

/// True if no character of `s` is the escape character.
pub open spec fn no_escape(s: Seq<char>) -> bool {
    forall|i: int| 0 <= i < s.len() ==> s[i] != '\u{1b}'
}

/// Joining two texts without escape characters gives one without.
proof fn lemma_no_escape_concat(a: Seq<char>, b: Seq<char>)
    requires
        no_escape(a),
        no_escape(b),
    ensures
        no_escape(a + b),
{
    assert forall|i: int| 0 <= i < (a + b).len() implies (a + b)[i] != '\u{1b}' by {
        if i < a.len() {
            assert((a + b)[i] == a[i]);
        } else {
            assert((a + b)[i] == b[i - a.len()]);
        }
    }
}

/// The letter of a promotion piece in coordinate notation.
pub open spec fn coordinate_letter(p: Piece) -> char {
    match p {
        Piece::Pawn => 'p',
        Piece::Knight => 'n',
        Piece::Bishop => 'b',
        Piece::Rook => 'r',
        Piece::Queen => 'q',
        Piece::King => 'k',
    }
}

/// A move in coordinate notation: the origin and destination squares, then the promotion
/// piece in lower case.
pub open spec fn coordinate_text(m: Move) -> Seq<char> {
    seq![file_char(m.from_idx()), rank_char(m.from_idx()), file_char(m.dest_idx()), rank_char(m.dest_idx())]
        + match m.move_kind().promotion() {
        Some(p) => seq![coordinate_letter(p)],
        None => Seq::<char>::empty(),
    }
}

impl Move {
    /// The move in coordinate notation, such as `e2e4` or `b7b8q`.
    pub fn to_text(&self) -> (r: String)
        ensures
            r@ == coordinate_text(*self),
    {
        let mut text = String::new();
        let from = self.from();
        let dest = self.dest();
        push_char(&mut text, from.file().to_char());
        push_char(&mut text, from.rank().to_char());
        push_char(&mut text, dest.file().to_char());
        push_char(&mut text, dest.rank().to_char());
        if let Some(p) = self.promotion_piece() {
            let letter = match p {
                Piece::Pawn => 'p',
                Piece::Knight => 'n',
                Piece::Bishop => 'b',
                Piece::Rook => 'r',
                Piece::Queen => 'q',
                Piece::King => 'k',
            };
            push_char(&mut text, letter);
        }
        text
    }
}

/// The promotion letter of coordinate notation is the letter a position record uses for a
/// black piece of the promotion type, and the promotion letter of algebraic notation the one
/// it uses for a white piece, which is also the letter that names that piece moving: each
/// reads back as the piece the pawn becomes.
pub proof fn law_promotion_letters(m: Move)
    requires
        m.move_kind().promotion() is Some,
    ensures
        coordinate_text(m).len() == 5,
        crate::board::fen::piece_of_char(coordinate_text(m)[4] as u8) == Some(
            (m.move_kind().promotion().unwrap(), Colour::Black),
        ),
        crate::board::fen::piece_of_char(promotion_letter(m.move_kind().promotion().unwrap()) as u8) == Some(
            (m.move_kind().promotion().unwrap(), Colour::White),
        ),
        piece_letter(m.move_kind().promotion().unwrap()) == seq![promotion_letter(m.move_kind().promotion().unwrap())],
{
    let p = m.move_kind().promotion().unwrap();
    assert(p == Piece::Knight || p == Piece::Bishop || p == Piece::Rook || p == Piece::Queen);
    assert(coordinate_text(m)[4] == coordinate_letter(p));
}

/// The letter of a piece in algebraic notation; a pawn has none.
pub open spec fn piece_letter(p: Piece) -> Seq<char> {
    match p {
        Piece::Pawn => seq![],
        Piece::Knight => seq!['N'],
        Piece::Bishop => seq!['B'],
        Piece::Rook => seq!['R'],
        Piece::Queen => seq!['Q'],
        Piece::King => seq!['K'],
    }
}

/// The letter a pawn promotes to.
pub open spec fn promotion_letter(p: Piece) -> char {
    match p {
        Piece::Pawn => 'P',
        Piece::Knight => 'N',
        Piece::Bishop => 'B',
        Piece::Rook => 'R',
        Piece::Queen => 'Q',
        Piece::King => 'K',
    }
}

/// The file letter of square number `s`.
pub open spec fn file_char(s: int) -> char {
    ('a' as int + sq_file(s)) as char
}

/// The rank digit of square number `s`.
pub open spec fn rank_char(s: int) -> char {
    ('1' as int + sq_rank(s)) as char
}

/// The notation of a move that is not castling, with the disambiguation `disamb` and the
/// check mark `mark` left open: piece letter, disambiguation, `x` for a capture (a pawn
/// capture led by its file), destination, and `=` with the promotion letter.
pub open spec fn san_body(piece: Piece, m: Move, disamb: Seq<char>, mark: Seq<char>) -> Seq<char> {
    let f = m.from_idx();
    let d = m.dest_idx();
    let capture = if m.move_kind().captures() {
        if piece == Piece::Pawn {
            seq![file_char(f), 'x']
        } else {
            seq!['x']
        }
    } else {
        seq![]
    };
    let promotion = match m.move_kind().promotion() {
        Some(p) => seq!['=', promotion_letter(p)],
        None => seq![],
    };
    piece_letter(piece) + disamb + capture + seq![file_char(d), rank_char(d)] + promotion + mark
}

/// The number of spaces in `s`.
pub open spec fn spaces(s: Seq<char>) -> nat
    decreases s.len(),
{
    if s.len() == 0 {
        0
    } else {
        spaces(s.drop_last()) + if s.last() == ' ' {
            1nat
        } else {
            0nat
        }
    }
}

/// Spaces add up over concatenation.
pub proof fn lemma_spaces_concat(a: Seq<char>, b: Seq<char>)
    ensures
        spaces(a + b) == spaces(a) + spaces(b),
    decreases b.len(),
{
    if b.len() > 0 {
        lemma_spaces_concat(a, b.drop_last());
        assert((a + b).drop_last() =~= a + b.drop_last());
    }
}

/// A sequence none of whose characters is a space has no spaces.
pub proof fn lemma_no_spaces(s: Seq<char>)
    requires
        forall|i: int| 0 <= i < s.len() ==> s[i] != ' ',
    ensures
        spaces(s) == 0,
    decreases s.len(),
{
    if s.len() > 0 {
        lemma_no_spaces(s.drop_last());
    }
}

/// The disambiguations algebraic notation may use: none, the file, the rank, or both.
pub open spec fn is_disambiguation(disamb: Seq<char>, f: int) -> bool {
    disamb == Seq::<char>::empty() || disamb == seq![file_char(f)] || disamb == seq![rank_char(f)]
        || disamb == seq![file_char(f), rank_char(f)]
}

/// True if `mv` is another move of the same piece type as `m` to the same square.
pub open spec fn rival(board: Board, m: Move, mv: Move) -> bool {
    &&& mv.dest_idx() == m.dest_idx()
    &&& mv.from_idx() != m.from_idx()
    &&& match (board.at(mv.from_idx()), board.at(m.from_idx())) {
        (Some(a), Some(b)) => a.0 == b.0,
        (None, None) => true,
        _ => false,
    }
}

/// True if one of the first `n` moves of `moves` is a rival of `m`.
pub open spec fn any_rival(board: Board, m: Move, moves: Seq<Move>, n: int) -> bool {
    exists|j: int| 0 <= j < n && #[trigger] rival(board, m, moves[j])
}

/// True if one of the first `n` moves of `moves` is a rival of `m` from the same rank.
pub open spec fn rival_on_rank(board: Board, m: Move, moves: Seq<Move>, n: int) -> bool {
    exists|j: int|
        0 <= j < n && #[trigger] rival(board, m, moves[j]) && sq_rank(moves[j].from_idx()) == sq_rank(
            m.from_idx(),
        )
}

/// True if one of the first `n` moves of `moves` is a rival of `m` from the same file.
pub open spec fn rival_on_file(board: Board, m: Move, moves: Seq<Move>, n: int) -> bool {
    exists|j: int|
        0 <= j < n && #[trigger] rival(board, m, moves[j]) && sq_file(moves[j].from_idx()) == sq_file(
            m.from_idx(),
        )
}

/// The disambiguation of `m` among the moves `moves`: none for a pawn or without a rival;
/// otherwise the origin's file unless only a rival on the same file exists, then its rank when
/// a rival stands on the same file.
pub open spec fn disambiguation(board: Board, m: Move, moves: Seq<Move>) -> Seq<char> {
    let f = m.from_idx();
    let n = moves.len() as int;
    if board.at(f).unwrap().0 != Piece::Pawn && any_rival(board, m, moves, n) {
        (if rival_on_rank(board, m, moves, n) || !rival_on_file(board, m, moves, n) {
            seq![file_char(f)]
        } else {
            Seq::<char>::empty()
        }) + (if rival_on_file(board, m, moves, n) {
            seq![rank_char(f)]
        } else {
            Seq::<char>::empty()
        })
    } else {
        Seq::<char>::empty()
    }
}

/// True if every character of the disambiguation `disamb` names square number `s`: each is
/// its file letter or its rank digit.
pub open spec fn names_square(disamb: Seq<char>, s: int) -> bool {
    forall|i: int| 0 <= i < disamb.len() ==> disamb[i] == file_char(s) || disamb[i] == rank_char(s)
}

/// The disambiguation makes the notation unambiguous: it names the mover's square, and no
/// other move in the list of the same piece type to the same square starts on a square it
/// names.
pub proof fn law_disambiguation_unambiguous(board: Board, m: Move, moves: Seq<Move>)
    requires
        0 <= m.from_idx() < 64,
        board.at(m.from_idx()) matches Some(pc) && pc.0 != Piece::Pawn,
        forall|j: int| 0 <= j < moves.len() ==> 0 <= #[trigger] moves[j].from_idx() < 64,
    ensures
        names_square(disambiguation(board, m, moves), m.from_idx()),
        forall|j: int|
            0 <= j < moves.len() && #[trigger] rival(board, m, moves[j]) ==> !names_square(
                disambiguation(board, m, moves),
                moves[j].from_idx(),
            ),
{
    let f = m.from_idx();
    let n = moves.len() as int;
    let d = disambiguation(board, m, moves);
    assert forall|j: int| 0 <= j < moves.len() && #[trigger] rival(board, m, moves[j]) implies !names_square(
        d,
        moves[j].from_idx(),
    ) by {
        let r = moves[j].from_idx();
        assert(any_rival(board, m, moves, n));
        assert(r == 8 * sq_rank(r) + sq_file(r) && f == 8 * sq_rank(f) + sq_file(f));
        assert(0 <= sq_file(r) < 8 && 0 <= sq_rank(r) < 8 && 0 <= sq_file(f) < 8 && 0 <= sq_rank(f) < 8);
        if sq_file(r) == sq_file(f) {
            assert(rival_on_file(board, m, moves, n));
            let k = d.len() - 1;
            assert(d[k] == rank_char(f));
        } else if sq_rank(r) == sq_rank(f) {
            assert(rival_on_rank(board, m, moves, n));
            assert(d[0] == file_char(f));
        } else if rival_on_rank(board, m, moves, n) || !rival_on_file(board, m, moves, n) {
            assert(d[0] == file_char(f));
        } else {
            assert(d[d.len() - 1] == rank_char(f));
        }
    }
}

/// `san` is what `to_san` writes for `m` on `board`: `O-O` or `O-O-O` for castling; any other
/// move with the disambiguation that a list of moves the generator may produce calls for, a
/// list that, unless three or more pieces give check, holds every sound move that does not
/// take a king and no move other than en passant and castling that leaves the king attacked,
/// and the check mark that fits the position the move leads to.
pub open spec fn san_of(board: Board, m: Move, san: Seq<char>) -> bool {
    if m.move_kind() == MoveType::KingsideCastle {
        san == seq!['O', '-', 'O']
    } else if m.move_kind() == MoveType::QueensideCastle {
        san == seq!['O', '-', 'O', '-', 'O']
    } else {
        exists|moves: Seq<Move>, mark: Seq<char>, child: Board|
            #![trigger disambiguation(board, m, moves), mark_fits(child, mark), board.made(m, child)]
            {
                &&& forall|j: int| 0 <= j < moves.len() ==> #[trigger] board.generated(moves[j])
                &&& (board.at_most_two_checkers() ==> board.lists_replies(moves))
                &&& (board.at_most_two_checkers() ==> board.adds_safe(Seq::<Move>::empty(), moves))
                &&& board.made(m, child)
                &&& mark_fits(child, mark)
                &&& san == san_body(
                    board.at(m.from_idx()).unwrap().0,
                    m,
                    disambiguation(board, m, moves),
                    mark,
                )
            }
    }
}

/// `word` is `san` and a space, bright white for white's move and bright black for black's
/// where the terminal takes colours.
pub open spec fn coloured_word(side: Colour, san: Seq<char>, word: Seq<char>) -> bool {
    let code = match side {
        Colour::White => '7',
        Colour::Black => '0',
    };
    word == san + seq![' '] || word == seq!['\u{1b}', '[', '9', code, 'm'] + san + seq![
        '\u{1b}',
        '[',
        '0',
        'm',
        ' ',
    ]
}

/// `text` is the line `pv` written from `board`: each move as `to_san` writes it on the
/// position the moves before it lead to, as a coloured word.
pub open spec fn pv_text(board: Board, pv: Seq<Move>, text: Seq<char>) -> bool
    decreases pv.len(),
{
    if pv.len() == 0 {
        text.len() == 0
    } else {
        exists|san: Seq<char>, word: Seq<char>, child: Board|
            #![trigger san_of(board, pv[0], san), coloured_word(board.turn(), san, word), board.made(pv[0], child)]
            {
                &&& san_of(board, pv[0], san)
                &&& coloured_word(board.turn(), san, word)
                &&& board.made(pv[0], child)
                &&& word.len() <= text.len()
                &&& text.subrange(0, word.len() as int) == word
                &&& pv_text(child, pv.drop_first(), text.subrange(word.len() as int, text.len() as int))
            }
    }
}

/// The check mark `mark` fits the position `child` that the move leads to: none when it is
/// not in check; when it is, unless three or more pieces give check, `#` when no sound reply
/// exists, and `+` when some move the generator may produce is en passant, castling or keeps
/// the king safe.
pub open spec fn mark_fits(child: Board, mark: Seq<char>) -> bool {
    &&& is_mark(mark)
    &&& (mark.len() == 0 <==> !child.checked())
    &&& (mark.len() == 1 && mark[0] == '#' && child.at_most_two_checkers() ==> forall|r: Move|
        !#[trigger] child.sound_move(r))
    &&& (mark.len() == 1 && mark[0] == '+' && child.at_most_two_checkers() ==> exists|r: Move|
        child.generated(r) && #[trigger] child.safe_or_special(r))
}

/// The check marks: none, `+` for check and `#` for mate.
pub open spec fn is_mark(mark: Seq<char>) -> bool {
    mark == Seq::<char>::empty() || mark == seq!['+'] || mark == seq!['#']
}

/// The same piece type, or both squares empty.
fn same_piece(a: Option<Piece>, b: Option<Piece>) -> (r: bool)
    ensures
        r == (a == b),
{
    match (a, b) {
        (Some(x), Some(y)) => x == y,
        (None, None) => true,
        _ => false,
    }
}

/// The file letter of a square.
fn file_of(sq: Square) -> (r: char)
    ensures
        r == file_char(sq.index()),
{
    let c = sq.file().to_char();
    proof {
        assert(c as int == 'a' as int + sq_file(sq.index()));
    }
    c
}

/// The rank digit of a square.
fn rank_of(sq: Square) -> (r: char)
    ensures
        r == rank_char(sq.index()),
{
    let c = sq.rank().to_char();
    proof {
        assert(c as int == '1' as int + sq_rank(sq.index()));
    }
    c
}

/// The notation of a move other than castling by `piece`, with the disambiguation `disamb` and
/// no check mark.
fn notation_body(piece: Piece, m: Move, disamb: &str) -> (r: String)
    ensures
        r@ == san_body(piece, m, disamb@, seq![]),
{
    let mut san = String::new();
    match piece {
        Piece::Pawn => {},
        Piece::Knight => push_char(&mut san, 'N'),
        Piece::Bishop => push_char(&mut san, 'B'),
        Piece::Rook => push_char(&mut san, 'R'),
        Piece::Queen => push_char(&mut san, 'Q'),
        Piece::King => push_char(&mut san, 'K'),
    }
    san.append(disamb);
    let ghost head = san@;
    let from = m.from();
    let dest = m.dest();
    if m.is_capture() {
        if let Piece::Pawn = piece {
            push_char(&mut san, file_of(from));
        }
        push_char(&mut san, 'x');
    }
    let ghost with_capture = san@;
    push_char(&mut san, file_of(dest));
    push_char(&mut san, rank_of(dest));
    let ghost with_dest = san@;
    if let Some(promotion) = m.promotion_piece() {
        push_char(&mut san, '=');
        let letter = match promotion {
            Piece::Pawn => 'P',
            Piece::Knight => 'N',
            Piece::Bishop => 'B',
            Piece::Rook => 'R',
            Piece::Queen => 'Q',
            Piece::King => 'K',
        };
        push_char(&mut san, letter);
    }
    proof {
        assert(head == piece_letter(piece) + disamb@);
    }
    san
}

/// The parts of algebraic notation hold no spaces and no escape characters.
proof fn lemma_body_chars(piece: Piece, m: Move, disamb: Seq<char>, mark: Seq<char>)
    requires
        is_disambiguation(disamb, m.from_idx()),
        is_mark(mark),
    ensures
        spaces(san_body(piece, m, disamb, mark)) == 0,
        no_escape(san_body(piece, m, disamb, mark)),
{
    let f = m.from_idx();
    let d = m.dest_idx();
    let capture = if m.move_kind().captures() {
        if piece == Piece::Pawn {
            seq![file_char(f), 'x']
        } else {
            seq!['x']
        }
    } else {
        seq![]
    };
    let promotion = match m.move_kind().promotion() {
        Some(p) => seq!['=', promotion_letter(p)],
        None => seq![],
    };
    let dest = seq![file_char(d), rank_char(d)];
    assert(file_char(f) != ' ' && rank_char(f) != ' ' && file_char(d) != ' ' && rank_char(d) != ' ');
    lemma_no_spaces(piece_letter(piece));
    lemma_no_spaces(disamb);
    lemma_no_spaces(capture);
    lemma_no_spaces(dest);
    lemma_no_spaces(promotion);
    lemma_no_spaces(mark);
    lemma_spaces_concat(piece_letter(piece), disamb);
    lemma_spaces_concat(piece_letter(piece) + disamb, capture);
    lemma_spaces_concat(piece_letter(piece) + disamb + capture, dest);
    lemma_spaces_concat(piece_letter(piece) + disamb + capture + dest, promotion);
    lemma_spaces_concat(piece_letter(piece) + disamb + capture + dest + promotion, mark);
    assert(no_escape(piece_letter(piece)));
    assert(no_escape(disamb));
    assert(no_escape(capture));
    assert(no_escape(dest));
    assert(no_escape(promotion));
    assert(no_escape(mark));
    lemma_no_escape_concat(piece_letter(piece), disamb);
    lemma_no_escape_concat(piece_letter(piece) + disamb, capture);
    lemma_no_escape_concat(piece_letter(piece) + disamb + capture, dest);
    lemma_no_escape_concat(piece_letter(piece) + disamb + capture + dest, promotion);
    lemma_no_escape_concat(piece_letter(piece) + disamb + capture + dest + promotion, mark);
}

impl Board {
    /// A king of `colour` on some square means the board has a king of that colour.
    pub proof fn lemma_king_on_square(self, colour: Colour, s: int)
        requires
            self.rep().consistent(),
            0 <= s < 64,
            self.at(s) == Some((Piece::King, colour)),
        ensures
            self.rep().has_king(colour),
    {
        let i = self.rep().slot_at(s).unwrap();
        assert(self.rep().is_king_of(i, colour));
    }

    /// What `to_san` needs of a move: a piece of the side to move makes it, `make` accepts it,
    /// each side keeps a king, and castling rights come with room to castle.
    pub open spec fn san_ok(self, m: Move) -> bool {
        &&& self.move_ok(m)
        &&& exists|k: int| 0 <= k < 64 && #[trigger] self.at(k) == Some((Piece::King, self.turn()))
        &&& exists|k: int|
            0 <= k < 64 && #[trigger] self.at_after(m, k) == Some((Piece::King, self.turn().other()))
        &&& self.castling_room_for(self.turn())
        &&& self.room_after(m)
    }

    /// After `m`, a right to castle of the side to move next comes with room to castle around
    /// each of its kings.
    pub open spec fn room_after(self, m: Move) -> bool {
        let c = self.turn().other();
        let rights = self.rights_after(m);
        forall|k: int|
            0 <= k < 64 && #[trigger] self.at_after(m, k) == Some((Piece::King, c)) ==> {
                &&& (if c == Colour::White {
                    rights.0
                } else {
                    rights.2
                }) ==> Self::room_to_castle(k, true)
                &&& (if c == Colour::White {
                    rights.1
                } else {
                    rights.3
                }) ==> Self::room_to_castle(k, false)
            }
    }

    /// The position after a move has room to castle for its side to move as `room_after` says.
    pub proof fn lemma_castling_room_after(self, m: Move, child: Board)
        requires
            self.room_after(m),
            forall|s: int| 0 <= s < 64 ==> #[trigger] child.at(s) == self.at_after(m, s),
            child.turn() == self.turn().other(),
            child.rights() == self.rights_after(m),
        ensures
            child.castling_room_for(child.turn()),
    {
        assert forall|k: int|
            0 <= k < 64 && #[trigger] child.at(k) == Some((Piece::King, child.turn())) implies {
            &&& (if child.turn() == Colour::White {
                child.rights().0
            } else {
                child.rights().2
            }) ==> Self::room_to_castle(k, true)
            &&& (if child.turn() == Colour::White {
                child.rights().1
            } else {
                child.rights().3
            }) ==> Self::room_to_castle(k, false)
        } by {
            assert(self.at_after(m, k) == Some((Piece::King, self.turn().other())));
        }
    }

    /// Whether another piece of the type on `from` can also move to `dest`, and whether one
    /// such piece shares the rank or the file of `from`.
    fn ambiguity(&self, m: Move, from: Square, dest: Square) -> (r: (bool, bool, bool))
        requires
            self.rep().has_king(self.turn()),
            self.castling_room(),
            from.index() == m.from_idx(),
            dest.index() == m.dest_idx(),
        ensures
            exists|moves: Seq<Move>|
                #![trigger any_rival(*self, m, moves, moves.len() as int)]
                {
                    &&& forall|j: int| 0 <= j < moves.len() ==> #[trigger] self.generated(moves[j])
                    &&& (self.at_most_two_checkers() ==> self.lists_replies(moves))
                    &&& (self.at_most_two_checkers() ==> self.adds_safe(Seq::<Move>::empty(), moves))
                    &&& r.0 == any_rival(*self, m, moves, moves.len() as int)
                    &&& r.1 == rival_on_rank(*self, m, moves, moves.len() as int)
                    &&& r.2 == rival_on_file(*self, m, moves, moves.len() as int)
                },
    {
        let mut moves = new_list();
        self.generate(&mut moves);
        let count = list_len(&moves);
        let mut must_disambiguate = false;
        let mut piece_on_same_rank = false;
        let mut piece_on_same_file = false;
        let mut i: usize = 0;
        let ghost list = moves_of(moves);
        proof {
            assert(list.subrange(0, 0) =~= Seq::<Move>::empty());
        }
        while i < count
            invariant
                count == list.len(),
                list == moves_of(moves),
                i <= count,
                forall|j: int| 0 <= j < list.len() ==> #[trigger] self.generated(list[j]),
                self.at_most_two_checkers() ==> self.lists_replies(list),
                self.at_most_two_checkers() ==> self.adds_safe(Seq::<Move>::empty(), list),
                from.index() == m.from_idx(),
                dest.index() == m.dest_idx(),
                must_disambiguate == any_rival(*self, m, list, i as int),
                piece_on_same_rank == rival_on_rank(*self, m, list, i as int),
                piece_on_same_file == rival_on_file(*self, m, list, i as int),
            decreases count - i,
        {
            let mv = list_get(&moves, i);
            let mv_from = mv.from();
            let is_rival = mv.dest().into_inner() == dest.into_inner() && same_piece(
                self.piece_from_square(mv_from),
                self.piece_from_square(from),
            ) && mv_from.into_inner() != from.into_inner();
            proof {
                assert(is_rival == rival(*self, m, list[i as int]));
            }
            if is_rival {
                must_disambiguate = true;
                if mv_from.rank() == from.rank() {
                    piece_on_same_rank = true;
                }
                if mv_from.file() == from.file() {
                    piece_on_same_file = true;
                }
            }
            proof {
                assert(must_disambiguate == any_rival(*self, m, list, i + 1)) by {
                    if any_rival(*self, m, list, i + 1) && !is_rival {
                        let j = choose|j: int| 0 <= j < i + 1 && #[trigger] rival(*self, m, list[j]);
                        assert(j < i);
                    }
                }
                assert(piece_on_same_rank == rival_on_rank(*self, m, list, i + 1)) by {
                    if rival_on_rank(*self, m, list, i + 1) && !(is_rival && sq_rank(list[i as int].from_idx())
                        == sq_rank(m.from_idx())) {
                        let j = choose|j: int|
                            0 <= j < i + 1 && #[trigger] rival(*self, m, list[j]) && sq_rank(list[j].from_idx())
                                == sq_rank(m.from_idx());
                        assert(j < i);
                    }
                }
                assert(piece_on_same_file == rival_on_file(*self, m, list, i + 1)) by {
                    if rival_on_file(*self, m, list, i + 1) && !(is_rival && sq_file(list[i as int].from_idx())
                        == sq_file(m.from_idx())) {
                        let j = choose|j: int|
                            0 <= j < i + 1 && #[trigger] rival(*self, m, list[j]) && sq_file(list[j].from_idx())
                                == sq_file(m.from_idx());
                        assert(j < i);
                    }
                }
            }
            i += 1;
        }
        proof {
            assert(must_disambiguate == any_rival(*self, m, list, list.len() as int));
        }
        (must_disambiguate, piece_on_same_rank, piece_on_same_file)
    }

    /// The move `m` in standard algebraic notation: castling as `O-O` or `O-O-O`; any other
    /// move as its piece letter, the origin's file and/or rank where another piece of that type
    /// could also move to the destination, `x` for a capture (a pawn capture led by its file),
    /// the destination, `=` and the promotion letter, and `+` for check or `#` for mate.
    pub fn to_san(&self, m: Move) -> (r: String)
        requires
            self.san_ok(m),
        ensures
            san_of(*self, m, r@),
    {
        proof {
            use_type_invariant(self);
            let k = choose|k: int| 0 <= k < 64 && #[trigger] self.at(k) == Some((Piece::King, self.turn()));
            self.lemma_king_on_square(self.turn(), k);
        }
        let mut san = String::new();
        let kind = m.kind();
        if let MoveType::KingsideCastle = kind {
            push_char(&mut san, 'O');
            push_char(&mut san, '-');
            push_char(&mut san, 'O');
            assert(san@ =~= seq!['O', '-', 'O']);
            return san;
        }
        if let MoveType::QueensideCastle = kind {
            push_char(&mut san, 'O');
            push_char(&mut san, '-');
            push_char(&mut san, 'O');
            push_char(&mut san, '-');
            push_char(&mut san, 'O');
            assert(san@ =~= seq!['O', '-', 'O', '-', 'O']);
            return san;
        }
        let from = m.from();
        let dest = m.dest();
        let piece = match self.piece_from_square(from) {
            Some(p) => p,
            None => Piece::Pawn,
        };
        let (must_disambiguate, piece_on_same_rank, piece_on_same_file) = self.ambiguity(m, from, dest);
        let ghost rivals = choose|moves: Seq<Move>|
            #![trigger any_rival(*self, m, moves, moves.len() as int)]
            {
                &&& forall|j: int| 0 <= j < moves.len() ==> #[trigger] self.generated(moves[j])
                &&& (self.at_most_two_checkers() ==> self.lists_replies(moves))
                &&& (self.at_most_two_checkers() ==> self.adds_safe(Seq::<Move>::empty(), moves))
                &&& must_disambiguate == any_rival(*self, m, moves, moves.len() as int)
                &&& piece_on_same_rank == rival_on_rank(*self, m, moves, moves.len() as int)
                &&& piece_on_same_file == rival_on_file(*self, m, moves, moves.len() as int)
            };
        let mut disamb = String::new();
        let ghost f = from.index();
        if piece != Piece::Pawn && must_disambiguate {
            if piece_on_same_rank || !piece_on_same_file {
                push_char(&mut disamb, file_of(from));
                proof {
                    assert(disamb@ =~= seq![file_char(f)]);
                }
            }
            if piece_on_same_file {
                let ghost before = disamb@;
                push_char(&mut disamb, rank_of(from));
                proof {
                    if before.len() == 0 {
                        assert(disamb@ =~= seq![rank_char(f)]);
                    } else {
                        assert(disamb@ =~= seq![file_char(f), rank_char(f)]);
                    }
                }
            }
        }
        proof {
            if disamb@.len() == 0 {
                assert(disamb@ =~= Seq::<char>::empty());
            }
            assert(is_disambiguation(disamb@, f));
        }
        let body = notation_body(piece, m, disamb.as_str());
        san.append(body.as_str());
        // Check or mate.
        let child = self.make(m);
        proof {
            let k = choose|k: int|
                0 <= k < 64 && #[trigger] self.at_after(m, k) == Some((Piece::King, self.turn().other()));
            assert(child.at(k) == Some((Piece::King, child.turn())));
            use_type_invariant(&child);
            child.lemma_king_on_square(child.turn(), k);
            self.lemma_castling_room_after(m, child);
        }
        let ghost mut mark: Seq<char> = seq![];
        if child.in_check() {
            let mut replies = new_list();
            child.generate(&mut replies);
            if list_len(&replies) == 0 {
                push_char(&mut san, '#');
                proof {
                    mark = seq!['#'];
                    if child.at_most_two_checkers() {
                        assert forall|r: Move| !#[trigger] child.sound_move(r) by {
                            if child.sound_move(r) {
                                assert(child.lists_moves(moves_of(replies)));
                            }
                        }
                    }
                }
            } else {
                push_char(&mut san, '+');
                proof {
                    mark = seq!['+'];
                    if child.at_most_two_checkers() {
                        let r = moves_of(replies)[0];
                        assert(child.generated(r));
                        assert(child.safe_or_special(r));
                    }
                }
            }
        }
        proof {
            assert(disamb@ == disambiguation(*self, m, rivals));
            assert(san@ == san_body(piece, m, disamb@, mark));
            assert(is_mark(mark));
            assert(mark.len() == 0 <==> !child.checked());
            assert(mark_fits(child, mark));
        }
        san
    }

    /// True if the moves of `pv` can be written out one after another from this position.
    pub open spec fn pv_ok(self, pv: Seq<Move>) -> bool
        decreases pv.len(),
    {
        pv.len() == 0 || (self.san_ok(pv[0]) && forall|child: Board|
            #[trigger] self.made(pv[0], child) ==> child.pv_ok(pv.drop_first()))
    }

    /// True if `to_san` can write `m` on this position: the conditions of `san_ok`, checked
    /// by playing the move.
    pub fn can_san(&self, m: Move) -> (r: bool)
        ensures
            r == self.san_ok(m),
    {
        proof {
            use_type_invariant(self);
            self.lemma_has_king_at(self.turn());
        }
        if !self.can_make(m) {
            return false;
        }
        if !self.can_generate() {
            return false;
        }
        let child = self.make(m);
        proof {
            use_type_invariant(&child);
            child.lemma_has_king_at(child.turn());
            assert((exists|k: int| 0 <= k < 64 && #[trigger] child.at(k) == Some((Piece::King, child.turn())))
                == (exists|k: int| 0 <= k < 64 && #[trigger] self.at_after(m, k) == Some((Piece::King, self.turn().other())))) by {
                if exists|k: int| 0 <= k < 64 && #[trigger] child.at(k) == Some((Piece::King, child.turn())) {
                    let k = choose|k: int| 0 <= k < 64 && #[trigger] child.at(k) == Some((Piece::King, child.turn()));
                    assert(self.at_after(m, k) == Some((Piece::King, self.turn().other())));
                }
                if exists|k: int| 0 <= k < 64 && #[trigger] self.at_after(m, k) == Some((Piece::King, self.turn().other())) {
                    let k = choose|k: int| 0 <= k < 64 && #[trigger] self.at_after(m, k) == Some((Piece::King, self.turn().other()));
                    assert(child.at(k) == Some((Piece::King, child.turn())));
                }
            }
            assert(child.castling_room_for(child.turn()) == self.room_after(m)) by {
                assert forall|k: int| 0 <= k < 64 implies #[trigger] child.at(k) == self.at_after(m, k) by {}
                let c = child.turn();
                assert forall|k: int|
                    0 <= k < 64 && #[trigger] child.at(k) == Some((Piece::King, c)) implies
                    self.at_after(m, k) == Some((Piece::King, c)) by {}
                assert forall|k: int|
                    0 <= k < 64 && #[trigger] self.at_after(m, k) == Some((Piece::King, c)) implies
                    child.at(k) == Some((Piece::King, c)) by {}
            }
        }
        child.can_generate()
    }

    /// A colour has a king exactly when one stands on some square.
    proof fn lemma_has_king_at(self, colour: Colour)
        requires
            self.rep().consistent(),
        ensures
            self.rep().has_king(colour) == exists|k: int|
                0 <= k < 64 && #[trigger] self.at(k) == Some((Piece::King, colour)),
    {
        if self.rep().has_king(colour) {
            let i = choose|i: int| #[trigger] self.rep().is_king_of(i, colour);
            let k = self.rep().sq_of(i);
            assert(self.rep().slot_at(k) == Some(i));
            assert(self.at(k) == Some((Piece::King, colour)));
        }
        if exists|k: int| 0 <= k < 64 && #[trigger] self.at(k) == Some((Piece::King, colour)) {
            let k = choose|k: int| 0 <= k < 64 && #[trigger] self.at(k) == Some((Piece::King, colour));
            self.lemma_king_on_square(colour, k);
        }
    }

    /// Two positions with the same squares see the same pawn attacks.
    proof fn lemma_same_pawn_attacker(b1: Board, b2: Board, t: int, colour: Colour)
        requires
            forall|s: int| 0 <= s < 64 ==> #[trigger] b1.at(s) == b2.at(s),
        ensures
            b1.rep().pawn_attacker(t, colour) == b2.rep().pawn_attacker(t, colour),
    {
        if b1.rep().pawn_attacker(t, colour) {
            let p = choose|p: int|
                0 <= p < 64 && #[trigger] b1.rep().piece_on(p) == Some((Piece::Pawn, colour))
                    && crate::board::attacks::pawn_attacks(colour, p, t);
            assert(b1.at(p) == b2.at(p));
        }
        if b2.rep().pawn_attacker(t, colour) {
            let p = choose|p: int|
                0 <= p < 64 && #[trigger] b2.rep().piece_on(p) == Some((Piece::Pawn, colour))
                    && crate::board::attacks::pawn_attacks(colour, p, t);
            assert(b1.at(p) == b2.at(p));
        }
    }

    /// Two positions with the same squares, side to move, castling rights and en-passant
    /// square accept the same moves, and a move leads both to the same positions.
    proof fn lemma_same_position_move(b1: Board, b2: Board, m: Move)
        requires
            forall|s: int| 0 <= s < 64 ==> #[trigger] b1.at(s) == b2.at(s),
            b1.turn() == b2.turn(),
            b1.rights() == b2.rights(),
            b1.ep_square() == b2.ep_square(),
        ensures
            b1.move_ok(m) == b2.move_ok(m),
            b1.move_ok(m) ==> forall|s: int| 0 <= s < 64 ==> #[trigger] b1.at_after(m, s) == b2.at_after(m, s),
            b1.move_ok(m) ==> b1.san_ok(m) == b2.san_ok(m),
            b1.move_ok(m) ==> forall|c: Board| #[trigger] b1.made(m, c) == b2.made(m, c),
    {
        let f = m.from_idx();
        let d = m.dest_idx();
        let kind = m.move_kind();
        Move::lemma_fields_range(m);
        assert(b1.at(f) == b2.at(f));
        assert(b1.at(d) == b2.at(d));
        if kind == MoveType::KingsideCastle || kind == MoveType::QueensideCastle {
            if b1.move_ok(m) || b2.move_ok(m) {
                assert(b1.at(Board::rook_from(kind, d)) == b2.at(Board::rook_from(kind, d)));
                assert(b1.at(Board::rook_to(kind, d)) == b2.at(Board::rook_to(kind, d)));
            }
        }
        if kind == MoveType::EnPassant && b1.ep_square() is Some && step(
            b1.ep_square().unwrap(),
            crate::square::backward(b1.turn()),
        ) is Some {
            assert(b1.at(b1.ep_victim()) == b2.at(b2.ep_victim()));
        }
        assert(b1.move_ok(m) == b2.move_ok(m));
        if b1.move_ok(m) {
            assert forall|s: int| 0 <= s < 64 implies #[trigger] b1.at_after(m, s) == b2.at_after(m, s)
                by {
                assert(b1.at(s) == b2.at(s));
            }
            assert(b1.san_ok(m) == b2.san_ok(m)) by {
                if b1.san_ok(m) {
                    let k = choose|k: int| 0 <= k < 64 && #[trigger] b1.at(k) == Some((Piece::King, b1.turn()));
                    assert(b2.at(k) == Some((Piece::King, b2.turn())));
                    let k2 = choose|k: int|
                        0 <= k < 64 && #[trigger] b1.at_after(m, k) == Some((Piece::King, b1.turn().other()));
                    assert(b2.at_after(m, k2) == Some((Piece::King, b2.turn().other())));
                    assert forall|k: int|
                        0 <= k < 64 && #[trigger] b2.at(k) == Some((Piece::King, b2.turn())) implies
                        b1.at(k) == Some((Piece::King, b1.turn())) by {}
                    assert forall|k: int|
                        0 <= k < 64 && #[trigger] b2.at_after(m, k) == Some((Piece::King, b2.turn().other())) implies
                        b1.at_after(m, k) == Some((Piece::King, b1.turn().other())) by {}
                }
                if b2.san_ok(m) {
                    let k = choose|k: int| 0 <= k < 64 && #[trigger] b2.at(k) == Some((Piece::King, b2.turn()));
                    assert(b1.at(k) == Some((Piece::King, b1.turn())));
                    let k2 = choose|k: int|
                        0 <= k < 64 && #[trigger] b2.at_after(m, k) == Some((Piece::King, b2.turn().other()));
                    assert(b1.at_after(m, k2) == Some((Piece::King, b1.turn().other())));
                    assert forall|k: int|
                        0 <= k < 64 && #[trigger] b1.at(k) == Some((Piece::King, b1.turn())) implies
                        b2.at(k) == Some((Piece::King, b2.turn())) by {}
                    assert forall|k: int|
                        0 <= k < 64 && #[trigger] b1.at_after(m, k) == Some((Piece::King, b1.turn().other())) implies
                        b2.at_after(m, k) == Some((Piece::King, b2.turn().other())) by {}
                }
            }
            assert forall|c: Board| #[trigger] b1.made(m, c) == b2.made(m, c) by {}
        }
    }

    /// Two positions with the same squares, side to move, castling rights and en-passant
    /// square accept the same lines.
    proof fn lemma_same_position_pv(b1: Board, b2: Board, pv: Seq<Move>)
        requires
            forall|s: int| 0 <= s < 64 ==> #[trigger] b1.at(s) == b2.at(s),
            b1.turn() == b2.turn(),
            b1.rights() == b2.rights(),
            b1.ep_square() == b2.ep_square(),
        ensures
            b1.pv_ok(pv) == b2.pv_ok(pv),
    {
        if pv.len() > 0 {
            let m = pv[0];
            Self::lemma_same_position_move(b1, b2, m);
            if b1.move_ok(m) {
                assert((forall|c: Board| #[trigger] b1.made(m, c) ==> c.pv_ok(pv.drop_first())) == (
                forall|c: Board| #[trigger] b2.made(m, c) ==> c.pv_ok(pv.drop_first()))) by {
                    if forall|c: Board| #[trigger] b1.made(m, c) ==> c.pv_ok(pv.drop_first()) {
                        assert forall|c: Board| #[trigger] b2.made(m, c) implies c.pv_ok(pv.drop_first()) by {
                            assert(b1.made(m, c));
                        }
                    }
                    if forall|c: Board| #[trigger] b2.made(m, c) ==> c.pv_ok(pv.drop_first()) {
                        assert forall|c: Board| #[trigger] b1.made(m, c) implies c.pv_ok(pv.drop_first()) by {
                            assert(b2.made(m, c));
                        }
                    }
                }
            } else {
                assert(!b1.san_ok(m) && !b2.san_ok(m));
            }
        }
    }

    /// True if `pv_to_san` can write the line `pv` from this position: each move in turn
    /// satisfies `san_ok` on the position the earlier ones lead to.
    pub fn pv_valid(&self, pv: &[Move]) -> (r: bool)
        ensures
            r == self.pv_ok(pv@),
    {
        let mut board = *self;
        let mut i: usize = 0;
        proof {
            assert(pv@.subrange(0, pv@.len() as int) =~= pv@);
        }
        while i < pv.len()
            invariant
                0 <= i <= pv@.len(),
                self.pv_ok(pv@) == board.pv_ok(pv@.subrange(i as int, pv@.len() as int)),
            decreases pv@.len() - i,
        {
            let m = pv[i];
            let ghost rest = pv@.subrange(i as int, pv@.len() as int);
            let ghost tail = pv@.subrange(i + 1, pv@.len() as int);
            proof {
                assert(rest[0] == m);
                assert(rest.drop_first() =~= tail);
            }
            if !board.can_san(m) {
                return false;
            }
            let child = board.make(m);
            proof {
                assert forall|c: Board| #[trigger] board.made(m, c) implies c.pv_ok(tail) == child.pv_ok(tail) by {
                    assert forall|s: int| 0 <= s < 64 implies #[trigger] c.at(s) == child.at(s) by {}
                    if step(m.from_idx(), forward(board.turn())) is Some {
                        Self::lemma_same_pawn_attacker(
                            c,
                            child,
                            step(m.from_idx(), forward(board.turn())).unwrap(),
                            board.turn().other(),
                        );
                    }
                    Self::lemma_same_position_pv(c, child, tail);
                }
            }
            board = child;
            i = i + 1;
        }
        proof {
            assert(pv@.subrange(i as int, pv@.len() as int) =~= Seq::<Move>::empty());
        }
        true
    }

    /// The moves of `pv` in algebraic notation, each followed by a space, coloured bright white
    /// for white's moves and bright black for black's where the terminal takes colours.
    pub fn pv_to_san(&self, pv: &[Move]) -> (r: String)
        requires
            self.pv_ok(pv@),
        ensures
            pv_text(*self, pv@, r@),
            spaces(r@) == pv@.len(),
    {
        let mut s = String::new();
        let mut board = *self;
        let mut i: usize = 0;
        proof {
            assert(pv@.subrange(0, pv@.len() as int) =~= pv@);
            assert(spaces(s@) == 0);
            assert forall|tail: Seq<char>| #[trigger]
                pv_text(board, pv@.subrange(i as int, pv@.len() as int), tail) implies pv_text(
                *self,
                pv@,
                s@ + tail,
            ) by {
                assert(s@ + tail =~= tail);
            }
        }
        while i < pv.len()
            invariant
                0 <= i <= pv@.len(),
                board.pv_ok(pv@.subrange(i as int, pv@.len() as int)),
                spaces(s@) == i,
                forall|tail: Seq<char>| #[trigger]
                    pv_text(board, pv@.subrange(i as int, pv@.len() as int), tail) ==> pv_text(
                        *self,
                        pv@,
                        s@ + tail,
                    ),
            decreases pv@.len() - i,
        {
            let m = pv[i];
            let ghost rest = pv@.subrange(i as int, pv@.len() as int);
            proof {
                assert(rest[0] == m);
            }
            let san = board.to_san(m);
            proof {
                self.lemma_san_chars(board, m, san@);
            }
            let word = match board.side() {
                Colour::White => bright_white_word(san.as_str()),
                Colour::Black => bright_black_word(san.as_str()),
            };
            proof {
                lemma_spaces_concat(san@, seq![' ']);
                lemma_spaces_concat(seq!['\u{1b}', '[', '9', '7', 'm'], san@);
                lemma_spaces_concat(seq!['\u{1b}', '[', '9', '7', 'm'] + san@, seq!['\u{1b}', '[', '0', 'm', ' ']);
                lemma_spaces_concat(seq!['\u{1b}', '[', '9', '0', 'm'], san@);
                lemma_spaces_concat(seq!['\u{1b}', '[', '9', '0', 'm'] + san@, seq!['\u{1b}', '[', '0', 'm', ' ']);
                lemma_no_spaces(seq!['\u{1b}', '[', '9', '7', 'm']);
                lemma_no_spaces(seq!['\u{1b}', '[', '9', '0', 'm']);
                assert(spaces(seq!['\u{1b}', '[', '0', 'm', ' ']) == 1) by {
                    lemma_no_spaces(seq!['\u{1b}', '[', '0', 'm']);
                    assert(seq!['\u{1b}', '[', '0', 'm', ' '].drop_last() =~= seq!['\u{1b}', '[', '0', 'm']);
                }
                assert(spaces(seq![' ']) == 1) by {
                    assert(seq![' '].drop_last() =~= Seq::<char>::empty());
                    assert(spaces(Seq::<char>::empty()) == 0);
                }
                assert(spaces(word@) == 1);
                lemma_spaces_concat(s@, word@);
            }
            let ghost s_before = s@;
            s.append(word.as_str());
            let child = board.make(m);
            proof {
                assert(board.made(m, child));
                assert(rest.drop_first() =~= pv@.subrange(i + 1, pv@.len() as int));
                assert(coloured_word(board.turn(), san@, word@));
                assert forall|tail: Seq<char>| #[trigger]
                    pv_text(child, pv@.subrange(i + 1, pv@.len() as int), tail) implies pv_text(
                    *self,
                    pv@,
                    s@ + tail,
                ) by {
                    let text = word@ + tail;
                    assert(text.subrange(0, word@.len() as int) =~= word@);
                    assert(text.subrange(word@.len() as int, text.len() as int) =~= tail);
                    assert(pv_text(board, rest, text));
                    assert(s_before + text =~= s@ + tail);
                }
            }
            board = child;
            i += 1;
        }
        proof {
            assert(pv_text(board, pv@.subrange(i as int, pv@.len() as int), Seq::<char>::empty()));
            assert(s@ + Seq::<char>::empty() =~= s@);
        }
        s
    }

    /// Algebraic notation holds no spaces and no escape characters.
    proof fn lemma_san_chars(self, board: Board, m: Move, san: Seq<char>)
        requires
            san_of(board, m, san),
        ensures
            spaces(san) == 0,
            no_escape(san),
    {
        if m.move_kind() != MoveType::KingsideCastle && m.move_kind() != MoveType::QueensideCastle {
            let (moves, mark, child) = choose|moves: Seq<Move>, mark: Seq<char>, child: Board|
                #![trigger disambiguation(board, m, moves), mark_fits(child, mark), board.made(m, child)]
                {
                    &&& forall|j: int| 0 <= j < moves.len() ==> #[trigger] board.generated(moves[j])
                    &&& (board.at_most_two_checkers() ==> board.lists_replies(moves))
                    &&& (board.at_most_two_checkers() ==> board.adds_safe(Seq::<Move>::empty(), moves))
                    &&& board.made(m, child)
                    &&& mark_fits(child, mark)
                    &&& san == san_body(
                        board.at(m.from_idx()).unwrap().0,
                        m,
                        disambiguation(board, m, moves),
                        mark,
                    )
                };
            let disamb = disambiguation(board, m, moves);
            assert(is_disambiguation(disamb, m.from_idx())) by {
                if disamb.len() == 0 {
                    assert(disamb =~= Seq::<char>::empty());
                } else if disamb.len() == 1 {
                    assert(disamb =~= seq![file_char(m.from_idx())] || disamb =~= seq![rank_char(m.from_idx())]);
                } else {
                    assert(disamb =~= seq![file_char(m.from_idx()), rank_char(m.from_idx())]);
                }
            }
            lemma_body_chars(board.at(m.from_idx()).unwrap().0, m, disamb, mark);
        } else {
            lemma_no_spaces(san);
        }
    }
}

} // verus!
