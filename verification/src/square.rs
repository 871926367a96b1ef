use vstd::prelude::*;

use crate::colour::Colour;
use crate::piece::Piece;
use vstd::string::StringSliceAdditionalSpecFns;

verus! {

/// A chessboard rank.
#[derive(Copy, Clone, Debug, PartialEq, Eq, Structural)]
pub enum Rank {
    One,
    Two,
    Three,
    Four,
    Five,
    Six,
    Seven,
    Eight,
}

/// The rank numbered `n` (0 is the first rank), for `0 <= n < 8`.
pub open spec fn rank_of(n: int) -> Rank {
    if n == 0 {
        Rank::One
    } else if n == 1 {
        Rank::Two
    } else if n == 2 {
        Rank::Three
    } else if n == 3 {
        Rank::Four
    } else if n == 4 {
        Rank::Five
    } else if n == 5 {
        Rank::Six
    } else if n == 6 {
        Rank::Seven
    } else {
        Rank::Eight
    }
}

impl Rank {
    /// The number of this rank, counted from 0 for the first rank.
    pub open spec fn idx(self) -> int {
        match self {
            Rank::One => 0,
            Rank::Two => 1,
            Rank::Three => 2,
            Rank::Four => 3,
            Rank::Five => 4,
            Rank::Six => 5,
            Rank::Seven => 6,
            Rank::Eight => 7,
        }
    }

    /// The number of this rank, counted from 0 for the first rank.
    pub fn into_u8(self) -> (r: u8)
        ensures
            r == self.idx(),
    {
        match self {
            Rank::One => 0,
            Rank::Two => 1,
            Rank::Three => 2,
            Rank::Four => 3,
            Rank::Five => 4,
            Rank::Six => 5,
            Rank::Seven => 6,
            Rank::Eight => 7,
        }
    }

    /// The rank with number `value`, if `value < 8`.
    pub fn try_from_u8(value: u8) -> (r: Result<Rank, ()>)
        ensures
            value < 8 <==> r is Ok,
            r matches Ok(rank) ==> rank.idx() == value && rank == rank_of(value as int),
    {
        match value {
            0 => Ok(Rank::One),
            1 => Ok(Rank::Two),
            2 => Ok(Rank::Three),
            3 => Ok(Rank::Four),
            4 => Ok(Rank::Five),
            5 => Ok(Rank::Six),
            6 => Ok(Rank::Seven),
            7 => Ok(Rank::Eight),
            _ => Err(()),
        }
    }

    /// The rank to the north, if any.
    pub fn north(self) -> (r: Option<Rank>)
        ensures
            self.idx() < 7 <==> r is Some,
            r matches Some(n) ==> n.idx() == self.idx() + 1,
    {
        match self {
            Rank::One => Some(Rank::Two),
            Rank::Two => Some(Rank::Three),
            Rank::Three => Some(Rank::Four),
            Rank::Four => Some(Rank::Five),
            Rank::Five => Some(Rank::Six),
            Rank::Six => Some(Rank::Seven),
            Rank::Seven => Some(Rank::Eight),
            Rank::Eight => None,
        }
    }

    /// The rank to the south, if any.
    pub fn south(self) -> (r: Option<Rank>)
        ensures
            self.idx() > 0 <==> r is Some,
            r matches Some(s) ==> s.idx() == self.idx() - 1,
    {
        match self {
            Rank::One => None,
            Rank::Two => Some(Rank::One),
            Rank::Three => Some(Rank::Two),
            Rank::Four => Some(Rank::Three),
            Rank::Five => Some(Rank::Four),
            Rank::Six => Some(Rank::Five),
            Rank::Seven => Some(Rank::Six),
            Rank::Eight => Some(Rank::Seven),
        }
    }

    /// True if this is the fourth rank from the point of view of `colour`.
    pub fn is_relative_fourth(self, colour: Colour) -> (r: bool)
        ensures
            r == (match colour {
                Colour::White => self == Rank::Four,
                Colour::Black => self == Rank::Five,
            }),
    {
        match colour {
            Colour::White => self == Rank::Four,
            Colour::Black => self == Rank::Five,
        }
    }

    /// True if this is the eighth rank from the point of view of `colour`.
    pub fn is_relative_eighth(self, colour: Colour) -> (r: bool)
        ensures
            r == (match colour {
                Colour::White => self == Rank::Eight,
                Colour::Black => self == Rank::One,
            }),
    {
        match colour {
            Colour::White => self == Rank::Eight,
            Colour::Black => self == Rank::One,
        }
    }

    /// The character naming this rank ('1' to '8').
    pub fn to_char(self) -> (r: char)
        ensures
            r as int == '1' as int + self.idx(),
    {
        match self {
            Rank::One => '1',
            Rank::Two => '2',
            Rank::Three => '3',
            Rank::Four => '4',
            Rank::Five => '5',
            Rank::Six => '6',
            Rank::Seven => '7',
            Rank::Eight => '8',
        }
    }
}

/// A chessboard file.
#[derive(Copy, Clone, Debug, PartialEq, Eq, Structural)]
pub enum File {
    A,
    B,
    C,
    D,
    E,
    F,
    G,
    H,
}

/// The file numbered `n` (0 is the a-file), for `0 <= n < 8`.
pub open spec fn file_of(n: int) -> File {
    if n == 0 {
        File::A
    } else if n == 1 {
        File::B
    } else if n == 2 {
        File::C
    } else if n == 3 {
        File::D
    } else if n == 4 {
        File::E
    } else if n == 5 {
        File::F
    } else if n == 6 {
        File::G
    } else {
        File::H
    }
}

impl File {
    /// The number of this file, counted from 0 for the a-file.
    pub open spec fn idx(self) -> int {
        match self {
            File::A => 0,
            File::B => 1,
            File::C => 2,
            File::D => 3,
            File::E => 4,
            File::F => 5,
            File::G => 6,
            File::H => 7,
        }
    }

    /// The number of this file, counted from 0 for the a-file.
    pub fn into_u8(self) -> (r: u8)
        ensures
            r == self.idx(),
    {
        match self {
            File::A => 0,
            File::B => 1,
            File::C => 2,
            File::D => 3,
            File::E => 4,
            File::F => 5,
            File::G => 6,
            File::H => 7,
        }
    }

    /// The file with number `value`, if `value < 8`.
    pub fn try_from_u8(value: u8) -> (r: Result<File, ()>)
        ensures
            value < 8 <==> r is Ok,
            r matches Ok(file) ==> file.idx() == value && file == file_of(value as int),
    {
        match value {
            0 => Ok(File::A),
            1 => Ok(File::B),
            2 => Ok(File::C),
            3 => Ok(File::D),
            4 => Ok(File::E),
            5 => Ok(File::F),
            6 => Ok(File::G),
            7 => Ok(File::H),
            _ => Err(()),
        }
    }

    /// The file to the east, if any.
    pub fn east(self) -> (r: Option<File>)
        ensures
            self.idx() < 7 <==> r is Some,
            r matches Some(e) ==> e.idx() == self.idx() + 1,
    {
        match self {
            File::A => Some(File::B),
            File::B => Some(File::C),
            File::C => Some(File::D),
            File::D => Some(File::E),
            File::E => Some(File::F),
            File::F => Some(File::G),
            File::G => Some(File::H),
            File::H => None,
        }
    }

    /// The file to the west, if any.
    pub fn west(self) -> (r: Option<File>)
        ensures
            self.idx() > 0 <==> r is Some,
            r matches Some(w) ==> w.idx() == self.idx() - 1,
    {
        match self {
            File::A => None,
            File::B => Some(File::A),
            File::C => Some(File::B),
            File::D => Some(File::C),
            File::E => Some(File::D),
            File::F => Some(File::E),
            File::G => Some(File::F),
            File::H => Some(File::G),
        }
    }

    /// The character naming this file ('a' to 'h').
    pub fn to_char(self) -> (r: char)
        ensures
            r as int == 'a' as int + self.idx(),
    {
        match self {
            File::A => 'a',
            File::B => 'b',
            File::C => 'c',
            File::D => 'd',
            File::E => 'e',
            File::F => 'f',
            File::G => 'g',
            File::H => 'h',
        }
    }
}

/// A chess direction: the eight compass directions and the eight knight jumps.
#[derive(Copy, Clone, Debug, PartialEq, Eq, Structural)]
pub enum Direction {
    North,
    NorthNorthEast,
    NorthEast,
    EastNorthEast,
    East,
    EastSouthEast,
    SouthEast,
    SouthSouthEast,
    South,
    SouthSouthWest,
    SouthWest,
    WestSouthWest,
    West,
    WestNorthWest,
    NorthWest,
    NorthNorthWest,
}

impl Direction {
    /// The change in rank of one step in this direction.
    pub open spec fn dr(self) -> int {
        match self {
            Direction::North => 1,
            Direction::NorthNorthEast => 2,
            Direction::NorthEast => 1,
            Direction::EastNorthEast => 1,
            Direction::East => 0,
            Direction::EastSouthEast => -1,
            Direction::SouthEast => -1,
            Direction::SouthSouthEast => -2,
            Direction::South => -1,
            Direction::SouthSouthWest => -2,
            Direction::SouthWest => -1,
            Direction::WestSouthWest => -1,
            Direction::West => 0,
            Direction::WestNorthWest => 1,
            Direction::NorthWest => 1,
            Direction::NorthNorthWest => 2,
        }
    }

    /// The change in file of one step in this direction.
    pub open spec fn df(self) -> int {
        match self {
            Direction::North => 0,
            Direction::NorthNorthEast => 1,
            Direction::NorthEast => 1,
            Direction::EastNorthEast => 2,
            Direction::East => 1,
            Direction::EastSouthEast => 2,
            Direction::SouthEast => 1,
            Direction::SouthSouthEast => 1,
            Direction::South => 0,
            Direction::SouthSouthWest => -1,
            Direction::SouthWest => -1,
            Direction::WestSouthWest => -2,
            Direction::West => -1,
            Direction::WestNorthWest => -2,
            Direction::NorthWest => -1,
            Direction::NorthNorthWest => -1,
        }
    }

    /// True for the four diagonal directions.
    pub open spec fn is_diagonal(self) -> bool {
        self == Direction::NorthEast || self == Direction::SouthEast || self == Direction::SouthWest
            || self == Direction::NorthWest
    }

    /// True for the four orthogonal directions.
    pub open spec fn is_orthogonal(self) -> bool {
        self == Direction::North || self == Direction::East || self == Direction::West
            || self == Direction::South
    }

    /// True if a slider of type `piece` moves along this direction.
    pub open spec fn slides(self, piece: Piece) -> bool {
        match piece {
            Piece::Bishop => self.is_diagonal(),
            Piece::Rook => self.is_orthogonal(),
            Piece::Queen => self.is_diagonal() || self.is_orthogonal(),
            _ => false,
        }
    }

    /// The direction 180 degrees from this one.
    pub fn opposite(self) -> (r: Direction)
        ensures
            r.dr() == -self.dr(),
            r.df() == -self.df(),
            r.is_diagonal() == self.is_diagonal(),
            r.is_orthogonal() == self.is_orthogonal(),
    {
        match self {
            Direction::North => Direction::South,
            Direction::NorthNorthEast => Direction::SouthSouthWest,
            Direction::NorthEast => Direction::SouthWest,
            Direction::EastNorthEast => Direction::WestSouthWest,
            Direction::East => Direction::West,
            Direction::EastSouthEast => Direction::WestNorthWest,
            Direction::SouthEast => Direction::NorthWest,
            Direction::SouthSouthEast => Direction::NorthNorthWest,
            Direction::South => Direction::North,
            Direction::SouthSouthWest => Direction::NorthNorthEast,
            Direction::SouthWest => Direction::NorthEast,
            Direction::WestSouthWest => Direction::EastNorthEast,
            Direction::West => Direction::East,
            Direction::WestNorthWest => Direction::EastSouthEast,
            Direction::NorthWest => Direction::SouthEast,
            Direction::NorthNorthWest => Direction::SouthSouthEast,
        }
    }

    /// Returns true if the direction is diagonal.
    pub fn diagonal(self) -> (r: bool)
        ensures
            r == self.is_diagonal(),
    {
        match self {
            Direction::NorthEast | Direction::SouthEast | Direction::SouthWest
            | Direction::NorthWest => true,
            _ => false,
        }
    }

    /// Returns true if the direction is orthogonal.
    pub fn orthogonal(self) -> (r: bool)
        ensures
            r == self.is_orthogonal(),
    {
        match self {
            Direction::North | Direction::East | Direction::West | Direction::South => true,
            _ => false,
        }
    }

    /// The 16x8 square difference of one step in this direction.
    pub fn to_16x8(self) -> (r: i16)
        ensures
            r == 16 * self.dr() + self.df(),
    {
        match self {
            Direction::North => 16,
            Direction::NorthNorthEast => 33,
            Direction::NorthEast => 17,
            Direction::EastNorthEast => 18,
            Direction::East => 1,
            Direction::EastSouthEast => -14,
            Direction::SouthEast => -15,
            Direction::SouthSouthEast => -31,
            Direction::South => -16,
            Direction::SouthSouthWest => -33,
            Direction::SouthWest => -17,
            Direction::WestSouthWest => -18,
            Direction::West => -1,
            Direction::WestNorthWest => 14,
            Direction::NorthWest => 15,
            Direction::NorthNorthWest => 31,
        }
    }

    /// True if a slider of type `piece` moves in this direction.
    pub fn valid_for_slider(self, piece: Piece) -> (r: bool)
        requires
            piece.is_slider(),
        ensures
            r == self.slides(piece),
    {
        match piece {
            Piece::Bishop => self.diagonal(),
            Piece::Rook => self.orthogonal(),
            _ => self.diagonal() || self.orthogonal(),
        }
    }

    /// The opposite of the opposite of a direction is the direction itself.
    pub proof fn lemma_opposite_involutive(d: Direction, e: Direction)
        requires
            e.dr() == -d.dr(),
            e.df() == -d.df(),
        ensures
            d == Direction::from_steps(-e.dr(), -e.df()),
            e == Direction::from_steps(e.dr(), e.df()),
    {
    }

    /// The direction with the given rank and file steps (North when there is none).
    pub open spec fn from_steps(dr: int, df: int) -> Direction {
        if dr == 1 && df == 0 {
            Direction::North
        } else if dr == 2 && df == 1 {
            Direction::NorthNorthEast
        } else if dr == 1 && df == 1 {
            Direction::NorthEast
        } else if dr == 1 && df == 2 {
            Direction::EastNorthEast
        } else if dr == 0 && df == 1 {
            Direction::East
        } else if dr == -1 && df == 2 {
            Direction::EastSouthEast
        } else if dr == -1 && df == 1 {
            Direction::SouthEast
        } else if dr == -2 && df == 1 {
            Direction::SouthSouthEast
        } else if dr == -1 && df == 0 {
            Direction::South
        } else if dr == -2 && df == -1 {
            Direction::SouthSouthWest
        } else if dr == -1 && df == -1 {
            Direction::SouthWest
        } else if dr == -1 && df == -2 {
            Direction::WestSouthWest
        } else if dr == 0 && df == -1 {
            Direction::West
        } else if dr == 1 && df == -2 {
            Direction::WestNorthWest
        } else if dr == 1 && df == -1 {
            Direction::NorthWest
        } else {
            Direction::NorthNorthWest
        }
    }
}

/// A square on a chessboard, numbered 0 (a1) to 63 (h8), rank-major.
#[derive(Copy, Clone, Debug, PartialEq, Eq, Structural)]
pub struct Square(u8);

/// The rank number (0-7) of square number `sq`.
pub open spec fn sq_rank(sq: int) -> int {
    sq / 8
}

/// The file number (0-7) of square number `sq`.
pub open spec fn sq_file(sq: int) -> int {
    sq % 8
}

/// True if rank `r` and file `f` lie on the board.
pub open spec fn on_board(r: int, f: int) -> bool {
    0 <= r < 8 && 0 <= f < 8
}

/// The square number at rank `r` and file `f`.
pub open spec fn sq_at(r: int, f: int) -> int {
    8 * r + f
}

/// The square reached from square number `sq` by one step in `dir`, if it is on the board.
pub open spec fn step(sq: int, dir: Direction) -> Option<int> {
    let r = sq_rank(sq) + dir.dr();
    let f = sq_file(sq) + dir.df();
    if on_board(r, f) {
        Some(sq_at(r, f))
    } else {
        None
    }
}

/// The direction of a queen move from square number `from` to square number `dest`, if any.
pub open spec fn direction_between(from: int, dest: int) -> Option<Direction> {
    let dr = sq_rank(dest) - sq_rank(from);
    let df = sq_file(dest) - sq_file(from);
    if dr == 0 && df == 0 {
        None
    } else if dr == 0 {
        if df > 0 {
            Some(Direction::East)
        } else {
            Some(Direction::West)
        }
    } else if df == 0 {
        if dr > 0 {
            Some(Direction::North)
        } else {
            Some(Direction::South)
        }
    } else if dr == df {
        if dr > 0 {
            Some(Direction::NorthEast)
        } else {
            Some(Direction::SouthWest)
        }
    } else if dr == -df {
        if dr > 0 {
            Some(Direction::NorthWest)
        } else {
            Some(Direction::SouthEast)
        }
    } else {
        None
    }
}

/// The colour-relative north of a colour: north for white, south for black.
pub open spec fn forward(colour: Colour) -> Direction {
    match colour {
        Colour::White => Direction::North,
        Colour::Black => Direction::South,
    }
}

/// The colour-relative south of a colour: south for white, north for black.
pub open spec fn backward(colour: Colour) -> Direction {
    match colour {
        Colour::White => Direction::South,
        Colour::Black => Direction::North,
    }
}

/// The knight directions, in the order the knight-move iterator visits them.
pub open spec fn knight_dir(i: int) -> Direction {
    if i == 0 {
        Direction::NorthNorthEast
    } else if i == 1 {
        Direction::EastNorthEast
    } else if i == 2 {
        Direction::EastSouthEast
    } else if i == 3 {
        Direction::SouthSouthEast
    } else if i == 4 {
        Direction::SouthSouthWest
    } else if i == 5 {
        Direction::WestSouthWest
    } else if i == 6 {
        Direction::WestNorthWest
    } else {
        Direction::NorthNorthWest
    }
}

/// The king directions, in the order the king-move iterator visits them.
pub open spec fn king_dir(i: int) -> Direction {
    if i == 0 {
        Direction::North
    } else if i == 1 {
        Direction::NorthEast
    } else if i == 2 {
        Direction::East
    } else if i == 3 {
        Direction::SouthEast
    } else if i == 4 {
        Direction::South
    } else if i == 5 {
        Direction::SouthWest
    } else if i == 6 {
        Direction::West
    } else {
        Direction::NorthWest
    }
}

/// The squares reached from `sq` by the jumps `dirs(i)` for `start <= i < 8`, in order, skipping
/// jumps that leave the board.
pub open spec fn jumps_from(sq: int, dirs: spec_fn(int) -> Direction, start: int) -> Seq<int>
    decreases 8 - start,
{
    if start >= 8 {
        Seq::empty()
    } else {
        match step(sq, dirs(start)) {
            Some(t) => seq![t] + jumps_from(sq, dirs, start + 1),
            None => jumps_from(sq, dirs, start + 1),
        }
    }
}

/// Mirroring a square across the middle of the board twice gives the square back.
pub proof fn lemma_flip_involutive(sq: int)
    requires
        0 <= sq < 64,
    ensures
        sq_at(7 - sq_rank(sq_at(7 - sq_rank(sq), sq_file(sq))), sq_file(sq_at(7 - sq_rank(sq), sq_file(sq))))
            == sq,
        0 <= sq_at(7 - sq_rank(sq), sq_file(sq)) < 64,
{
}

/// The knight jumps from `sq`, from the `start`-th on.
pub open spec fn knight_jumps(sq: int, start: int) -> Seq<int> {
    jumps_from(sq, |i: int| knight_dir(i), start)
}

/// The king steps from `sq`, from the `start`-th on.
pub open spec fn king_jumps(sq: int, start: int) -> Seq<int> {
    jumps_from(sq, |i: int| king_dir(i), start)
}

pub proof fn lemma_16x8_step(r: u8, f: u8, dr: i16, df: i16)
    by (bit_vector)
    requires
        r < 8,
        f < 8,
        -2 <= dr <= 2,
        -2 <= df <= 2,
    ensures
        ({
            let y = ((16 * r + f) as i16 + 16 * dr + df) as u8;
            &&& (y & 0x88 == 0) == (0 <= r + dr < 8 && 0 <= f + df < 8)
            &&& (y & 0x88 == 0) ==> y == 16 * (r + dr) + (f + df)
        }),
{
}

proof fn lemma_16x8_convert(sq: u8)
    by (bit_vector)
    requires
        sq < 64,
    ensures
        sq + (sq & 0xF8) == 16 * (sq / 8) + sq % 8,
        ((sq + (sq & 0xF8)) as u8) & 0x88 == 0,
        (sq ^ 56) == 8 * (7 - sq / 8) + sq % 8,
{
}

proof fn lemma_16x8_back(y: u8)
    by (bit_vector)
    requires
        y & 0x88 == 0,
    ensures
        ((y + (y & 7)) as u8) >> 1 == 8 * (y / 16) + y % 16,
        y % 16 < 8,
        y / 16 < 8,
        y < 128,
        (y & 7) < 8,
{
}

impl Square {
    /// The square's number, 0 (a1) to 63 (h8).
    pub closed spec fn index(self) -> int {
        self.0 as int % 64
    }

    #[verifier::type_invariant]
    spec fn in_range(self) -> bool {
        self.0 < 64
    }

    /// The rank number (0-7) of this square.
    pub open spec fn rank_idx(self) -> int {
        sq_rank(self.index())
    }

    /// The file number (0-7) of this square.
    pub open spec fn file_idx(self) -> int {
        sq_file(self.index())
    }

    /// Every square number is below 64.
    pub broadcast proof fn lemma_index_range(sq: Square)
        ensures
            0 <= #[trigger] sq.index() < 64,
    {
    }

    /// Construct a square directly from its number.
    pub fn from_u8_unchecked(sq: u8) -> (r: Square)
        requires
            sq < 64,
        ensures
            r.index() == sq,
    {
        Square(sq)
    }

    /// Construct a `Square` from a `Rank` and `File`.
    pub fn from_rank_file(rank: Rank, file: File) -> (r: Square)
        ensures
            r.index() == sq_at(rank.idx(), file.idx()),
    {
        let rank = rank.into_u8();
        let file = file.into_u8();
        Square(8 * rank + file)
    }

    /// Construct a square from its number, if it is below 64.
    pub fn try_from_u8(value: u8) -> (r: Result<Square, ()>)
        ensures
            value < 64 <==> r is Ok,
            r matches Ok(sq) ==> sq.index() == value,
    {
        let rank = Rank::try_from_u8(value / 8)?;
        let file = File::try_from_u8(value % 8)?;
        Ok(Self::from_rank_file(rank, file))
    }

    /// Parse a square in algebraic notation ("e4") from the first two bytes of `s`.
    pub fn from_bytes(s: &[u8]) -> (r: Result<Square, ()>)
        requires
            s@.len() >= 2,
        ensures
            r is Ok <==> (97u8 <= s@[0] <= 104u8 && 49u8 <= s@[1] <= 56u8),
            r matches Ok(sq) ==> sq.index() == sq_at(s@[1] - 49u8, s@[0] - 97u8),
    {
        if !(97u8 <= s[0] && s[0] <= 104u8) {
            return Err(());
        }
        if !(49u8 <= s[1] && s[1] <= 56u8) {
            return Err(());
        }
        let file = s[0] - 97u8;
        let rank = s[1] - 49u8;
        Ok(Square(8 * rank + file))
    }

    /// Parse a square in algebraic notation ("e4"), failing on text that is not ASCII.
    pub fn from_str(s: &str) -> (r: Result<Square, ()>)
        requires
            s.is_ascii() ==> s.spec_bytes().len() >= 2,
        ensures
            r is Ok <==> (s.is_ascii() && 97u8 <= s.spec_bytes()[0] <= 104u8 && 49u8
                <= s.spec_bytes()[1] <= 56u8),
            r matches Ok(sq) ==> sq.index() == sq_at(
                s.spec_bytes()[1] - 49u8,
                s.spec_bytes()[0] - 97u8,
            ),
    {
        if !s.is_ascii() {
            return Err(());
        }
        Self::from_bytes(s.as_bytes())
    }

    /// Return the internal number, 0 to 63.
    pub fn into_inner(self) -> (r: u8)
        ensures
            r == self.index(),
            r < 64,
    {
        proof {
            use_type_invariant(&self);
        }
        self.0
    }

    /// The rank of this square.
    pub fn rank(self) -> (r: Rank)
        ensures
            r.idx() == self.rank_idx(),
    {
        let v = self.into_inner();
        match Rank::try_from_u8(v / 8) {
            Ok(r) => r,
            Err(_) => Rank::Eight,
        }
    }

    /// The file of this square.
    pub fn file(self) -> (r: File)
        ensures
            r.idx() == self.file_idx(),
    {
        let v = self.into_inner();
        match File::try_from_u8(v % 8) {
            Ok(f) => f,
            Err(_) => File::H,
        }
    }

    /// Return the `Direction` between two squares, if any exists.
    pub fn direction(self, dest: Square) -> (r: Option<Direction>)
        ensures
            r == direction_between(self.index(), dest.index()),
    {
        Square16x8::from_square(self).direction(Square16x8::from_square(dest))
    }

    /// Return the `Square` in a given `Direction`, if one exists.
    pub fn travel(self, direction: Direction) -> (r: Option<Square>)
        ensures
            r is Some <==> step(self.index(), direction) is Some,
            r matches Some(t) ==> step(self.index(), direction) == Some(t.index()),
    {
        Square16x8::from_square(self).add_dir(direction).to_square()
    }

    pub fn north(self) -> (r: Option<Square>)
        ensures
            r is Some <==> step(self.index(), Direction::North) is Some,
            r matches Some(t) ==> step(self.index(), Direction::North) == Some(t.index()),
    {
        self.travel(Direction::North)
    }

    pub fn north_east(self) -> (r: Option<Square>)
        ensures
            r is Some <==> step(self.index(), Direction::NorthEast) is Some,
            r matches Some(t) ==> step(self.index(), Direction::NorthEast) == Some(t.index()),
    {
        self.travel(Direction::NorthEast)
    }

    pub fn east(self) -> (r: Option<Square>)
        ensures
            r is Some <==> step(self.index(), Direction::East) is Some,
            r matches Some(t) ==> step(self.index(), Direction::East) == Some(t.index()),
    {
        self.travel(Direction::East)
    }

    pub fn south_east(self) -> (r: Option<Square>)
        ensures
            r is Some <==> step(self.index(), Direction::SouthEast) is Some,
            r matches Some(t) ==> step(self.index(), Direction::SouthEast) == Some(t.index()),
    {
        self.travel(Direction::SouthEast)
    }

    pub fn south(self) -> (r: Option<Square>)
        ensures
            r is Some <==> step(self.index(), Direction::South) is Some,
            r matches Some(t) ==> step(self.index(), Direction::South) == Some(t.index()),
    {
        self.travel(Direction::South)
    }

    pub fn south_west(self) -> (r: Option<Square>)
        ensures
            r is Some <==> step(self.index(), Direction::SouthWest) is Some,
            r matches Some(t) ==> step(self.index(), Direction::SouthWest) == Some(t.index()),
    {
        self.travel(Direction::SouthWest)
    }

    pub fn west(self) -> (r: Option<Square>)
        ensures
            r is Some <==> step(self.index(), Direction::West) is Some,
            r matches Some(t) ==> step(self.index(), Direction::West) == Some(t.index()),
    {
        self.travel(Direction::West)
    }

    pub fn north_west(self) -> (r: Option<Square>)
        ensures
            r is Some <==> step(self.index(), Direction::NorthWest) is Some,
            r matches Some(t) ==> step(self.index(), Direction::NorthWest) == Some(t.index()),
    {
        self.travel(Direction::NorthWest)
    }

    /// The colour-dependent north of a square.
    pub fn relative_north(self, colour: Colour) -> (r: Option<Square>)
        ensures
            r is Some <==> step(self.index(), forward(colour)) is Some,
            r matches Some(t) ==> step(self.index(), forward(colour)) == Some(t.index()),
    {
        match colour {
            Colour::White => self.north(),
            Colour::Black => self.south(),
        }
    }

    /// The colour-dependent south of a square.
    pub fn relative_south(self, colour: Colour) -> (r: Option<Square>)
        ensures
            r is Some <==> step(self.index(), backward(colour)) is Some,
            r matches Some(t) ==> step(self.index(), backward(colour)) == Some(t.index()),
    {
        match colour {
            Colour::White => self.south(),
            Colour::Black => self.north(),
        }
    }

    /// The squares a pawn of `colour` on this square attacks, east capture first.
    pub fn pawn_attacks(self, colour: Colour) -> (r: PawnIter)
        ensures
            r.remaining() == pawn_attack_squares(self.index(), colour),
    {
        let relative_north = match colour {
            Colour::White => self.north(),
            Colour::Black => self.south(),
        };
        PawnIter { base: relative_north, next_index: 0 }
    }

    /// The squares a knight on this square attacks.
    pub fn knight_attacks(self) -> (r: KnightIter)
        ensures
            r.remaining() == knight_jumps(self.index(), 0),
    {
        KnightIter { square: self, next_index: 0 }
    }

    /// The squares a king on this square attacks.
    pub fn king_attacks(self) -> (r: KingIter)
        ensures
            r.remaining() == king_jumps(self.index(), 0),
    {
        KingIter { square: self, next_index: 0 }
    }

    /// The square mirrored across the middle of the board (a1 <-> a8).
    pub fn flip(self) -> (r: Square)
        ensures
            r.index() == sq_at(7 - self.rank_idx(), self.file_idx()),
    {
        let v = self.into_inner();
        proof {
            lemma_16x8_convert(v);
        }
        Square(v ^ 56)
    }
}

/// The squares attacked by a pawn of `colour` standing on square number `sq`, east first.
pub open spec fn pawn_attack_squares(sq: int, colour: Colour) -> Seq<int> {
    match step(sq, forward(colour)) {
        Some(n) => {
            let e = match step(n, Direction::East) {
                Some(t) => seq![t],
                None => Seq::empty(),
            };
            let w = match step(n, Direction::West) {
                Some(t) => seq![t],
                None => Seq::empty(),
            };
            e + w
        },
        None => Seq::empty(),
    }
}

/// A square in 16x8 coordinates: rank * 16 + file, with the off-board bits 0x88.
#[derive(Copy, Clone, Debug, PartialEq, Eq, Structural)]
pub struct Square16x8(u8);

impl Square16x8 {
    /// The raw 16x8 value.
    pub closed spec fn value(self) -> int {
        self.0 as int
    }

    /// True if the value lies on the board (no bit of 0x88 set).
    pub open spec fn on(self) -> bool {
        self.value() < 128 && self.value() % 16 < 8
    }

    /// The 8x8 square number of an on-board value.
    pub open spec fn square_index(self) -> int {
        8 * (self.value() / 16) + self.value() % 16
    }

    /// Convert an 8x8 square into 16x8 coordinates.
    pub fn from_square(square: Square) -> (r: Square16x8)
        ensures
            r.value() == 16 * square.rank_idx() + square.file_idx(),
            r.on(),
            r.square_index() == square.index(),
    {
        let sq = square.into_inner();
        proof {
            lemma_16x8_convert(sq);
        }
        Square16x8(sq + (sq & 0xF8))
    }

    /// True if this value is off the board.
    pub fn is_off_board(self) -> (r: bool)
        ensures
            r == !self.on(),
    {
        let v = self.0;
        assert((v & 0x88 == 0) == (v < 128 && v % 16 < 8)) by (bit_vector);
        v & 0x88 != 0
    }

    /// Convert back to an 8x8 square, if on the board.
    pub fn to_square(self) -> (r: Option<Square>)
        ensures
            r is Some <==> self.on(),
            r matches Some(sq) ==> sq.index() == self.square_index(),
    {
        if self.is_off_board() {
            return None;
        }
        let sq = self.0;
        proof {
            assert(sq & 0x88 == 0) by (bit_vector)
                requires
                    sq < 128 && sq % 16 < 8,
            ;
            lemma_16x8_back(sq);
        }
        Some(Square((sq + (sq & 7)) >> 1))
    }

    /// One step in `dir`.
    pub fn add_dir(self, dir: Direction) -> (r: Square16x8)
        requires
            self.on(),
        ensures
            r.on() <==> on_board(self.value() / 16 + dir.dr(), self.value() % 16 + dir.df()),
            r.on() ==> r.value() == 16 * (self.value() / 16 + dir.dr()) + (self.value() % 16
                + dir.df()),
    {
        let v = self.0;
        let rr: u8 = v / 16;
        let ff: u8 = v % 16;
        let delta = dir.to_16x8();
        let x: i16 = (v as i16) + delta;
        let y: u8 = x as u8;
        proof {
            assert(v == 16 * rr + ff && rr < 8 && ff < 8) by (bit_vector)
                requires
                    rr == v / 16 && ff == v % 16 && v < 128 && v % 16 < 8,
            ;
            lemma_16x8_step(rr, ff, dir.dr() as i16, dir.df() as i16);
            assert((y & 0x88 == 0) == (y < 128 && y % 16 < 8)) by (bit_vector);
        }
        Square16x8(y)
    }

    /// Return the `Direction` between two on-board squares, if any exists.
    #[verifier::rlimit(40)]
    pub fn direction(self, dest: Square16x8) -> (r: Option<Direction>)
        requires
            self.on(),
            dest.on(),
        ensures
            r == direction_between(self.square_index(), dest.square_index()),
    {
        let fr = (self.0 / 16) as i16;
        let ff = (self.0 % 16) as i16;
        let dr = (dest.0 / 16) as i16;
        let df = (dest.0 % 16) as i16;
        let vr = dr - fr;
        let vf = df - ff;
        if vr == 0 && vf == 0 {
            None
        } else if vr == 0 {
            if vf > 0 {
                Some(Direction::East)
            } else {
                Some(Direction::West)
            }
        } else if vf == 0 {
            if vr > 0 {
                Some(Direction::North)
            } else {
                Some(Direction::South)
            }
        } else if vr == vf {
            if vr > 0 {
                Some(Direction::NorthEast)
            } else {
                Some(Direction::SouthWest)
            }
        } else if vr == -vf {
            if vr > 0 {
                Some(Direction::NorthWest)
            } else {
                Some(Direction::SouthEast)
            }
        } else {
            None
        }
    }

    /// An iterator over the squares in a `Direction`.
    pub fn ray_attacks(self, dir: Direction) -> (r: RayIter)
        requires
            self.on(),
        ensures
            r.position() == self.square_index(),
            r.direction() == dir,
    {
        RayIter { current: self, dir }
    }
}

/// An iterator over the squares a pawn attacks.
pub struct PawnIter {
    base: Option<Square>,
    next_index: u8,
}

impl PawnIter {
    /// The squares this iterator has yet to produce.
    pub closed spec fn remaining(self) -> Seq<int> {
        match self.base {
            Some(n) => {
                let e = match step(n.index(), Direction::East) {
                    Some(t) => seq![t],
                    None => Seq::empty(),
                };
                let w = match step(n.index(), Direction::West) {
                    Some(t) => seq![t],
                    None => Seq::empty(),
                };
                if self.next_index == 0 {
                    e + w
                } else if self.next_index == 1 {
                    w
                } else {
                    Seq::empty()
                }
            },
            None => Seq::empty(),
        }
    }

    /// Produce the next attacked square, if any.
    pub fn next(&mut self) -> (r: Option<Square>)
        ensures
            old(self).remaining().len() == 0 ==> r is None && final(self).remaining().len() == 0,
            old(self).remaining().len() > 0 ==> (r matches Some(sq) && sq.index()
                == old(self).remaining()[0] && final(self).remaining() == old(
                self,
            ).remaining().drop_first()),
    {
        loop
            invariant
                self.remaining() == old(self).remaining() || (old(self).remaining().len() > 0
                    && old(self).next_index == 0 && self.next_index == 1 && self.base
                    == old(self).base && step(self.base.unwrap().index(), Direction::East) is None),
                self.base == old(self).base,
            decreases 3 - self.next_index,
        {
            let next = match self.next_index {
                0 => match self.base {
                    Some(sq) => sq.east(),
                    None => None,
                },
                1 => match self.base {
                    Some(sq) => sq.west(),
                    None => None,
                },
                _ => {
                    return None;
                },
            };
            self.next_index = self.next_index + 1;
            if next.is_some() {
                assert(self.remaining() == old(self).remaining().drop_first());
                return next;
            }
        }
    }
}

/// An iterator over the knight attacks of a `Square`.
pub struct KnightIter {
    square: Square,
    next_index: u8,
}

impl KnightIter {
    /// The squares this iterator has yet to produce.
    pub closed spec fn remaining(self) -> Seq<int> {
        knight_jumps(self.square.index(), self.next_index as int)
    }

    /// Produce the next attacked square, if any.
    pub fn next(&mut self) -> (r: Option<Square>)
        ensures
            old(self).remaining().len() == 0 ==> r is None && final(self).remaining().len() == 0,
            old(self).remaining().len() > 0 ==> (r matches Some(sq) && sq.index()
                == old(self).remaining()[0] && final(self).remaining() == old(
                self,
            ).remaining().drop_first()),
    {
        loop
            invariant
                self.remaining() == old(self).remaining(),
                self.square == old(self).square,
            decreases 9 - self.next_index,
        {
            if self.next_index >= 8 {
                return None;
            }
            let dir = match self.next_index {
                0 => Direction::NorthNorthEast,
                1 => Direction::EastNorthEast,
                2 => Direction::EastSouthEast,
                3 => Direction::SouthSouthEast,
                4 => Direction::SouthSouthWest,
                5 => Direction::WestSouthWest,
                6 => Direction::WestNorthWest,
                _ => Direction::NorthNorthWest,
            };
            assert(dir == knight_dir(self.next_index as int));
            let next = self.square.travel(dir);
            self.next_index = self.next_index + 1;
            if next.is_some() {
                return next;
            }
        }
    }
}

/// An iterator over the king attacks of a `Square`.
pub struct KingIter {
    square: Square,
    next_index: u8,
}

impl KingIter {
    /// The squares this iterator has yet to produce.
    pub closed spec fn remaining(self) -> Seq<int> {
        king_jumps(self.square.index(), self.next_index as int)
    }

    /// Produce the next attacked square, if any.
    pub fn next(&mut self) -> (r: Option<Square>)
        ensures
            old(self).remaining().len() == 0 ==> r is None && final(self).remaining().len() == 0,
            old(self).remaining().len() > 0 ==> (r matches Some(sq) && sq.index()
                == old(self).remaining()[0] && final(self).remaining() == old(
                self,
            ).remaining().drop_first()),
    {
        loop
            invariant
                self.remaining() == old(self).remaining(),
                self.square == old(self).square,
            decreases 9 - self.next_index,
        {
            if self.next_index >= 8 {
                return None;
            }
            let dir = match self.next_index {
                0 => Direction::North,
                1 => Direction::NorthEast,
                2 => Direction::East,
                3 => Direction::SouthEast,
                4 => Direction::South,
                5 => Direction::SouthWest,
                6 => Direction::West,
                _ => Direction::NorthWest,
            };
            assert(dir == king_dir(self.next_index as int));
            let next = self.square.travel(dir);
            self.next_index = self.next_index + 1;
            if next.is_some() {
                return next;
            }
        }
    }
}

/// An iterator over the `Square`s in a `Direction`.
pub struct RayIter {
    current: Square16x8,
    dir: Direction,
}

impl RayIter {
    #[verifier::type_invariant]
    spec fn on_board_position(self) -> bool {
        self.current.on()
    }

    /// The square number the ray has reached so far.
    pub closed spec fn position(self) -> int {
        self.current.square_index()
    }

    /// The direction of the ray.
    pub closed spec fn direction(self) -> Direction {
        self.dir
    }

    /// Produce the next square along the ray, if it is on the board.
    pub fn next(&mut self) -> (r: Option<Square>)
        ensures
            final(self).direction() == old(self).direction(),
            r is Some <==> step(old(self).position(), old(self).direction()) is Some,
            r matches Some(sq) ==> step(old(self).position(), old(self).direction()) == Some(
                sq.index(),
            ) && final(self).position() == sq.index(),
            r is None ==> final(self).position() == old(self).position(),
    {
        proof {
            use_type_invariant(&*self);
        }
        let next = self.current.add_dir(self.dir);
        if next.is_off_board() {
            return None;
        }
        self.current = next;
        next.to_square()
    }
}

} // verus!
