use vstd::prelude::*;

verus! {

/// A piece colour.
#[derive(Copy, Clone, PartialEq, Eq, Debug, Structural)]
pub enum Colour {
    /// White pieces.
    White,
    /// Black pieces.
    Black,
}

impl Colour {
    /// The number of a colour: white is 0 and black is 1.
    pub open spec fn index(self) -> nat {
        match self {
            Colour::White => 0,
            Colour::Black => 1,
        }
    }

    /// The other colour.
    pub open spec fn other(self) -> Colour {
        match self {
            Colour::White => Colour::Black,
            Colour::Black => Colour::White,
        }
    }

    /// The number of a colour as a `usize`: white is 0 and black is 1.
    pub fn into_usize(self) -> (r: usize)
        ensures
            r == self.index(),
    {
        match self {
            Colour::White => 0,
            Colour::Black => 1,
        }
    }

    /// The opposing colour.
    pub fn not(self) -> (r: Colour)
        ensures
            r == self.other(),
    {
        match self {
            Colour::White => Colour::Black,
            Colour::Black => Colour::White,
        }
    }

    /// Taking the opposing colour twice gives the colour back.
    pub proof fn lemma_not_involutive(c: Colour)
        ensures
            c.other().other() == c,
            c.other() != c,
    {
    }
}

} // verus!
