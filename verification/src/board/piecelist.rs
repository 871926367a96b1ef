use vstd::prelude::*;

use crate::board::index::PieceIndex;
use crate::square::Square;

verus! {

/// A `PieceIndex` -> `Square` mapping.
#[derive(Clone, Copy)]
pub struct Piecelist([Square; 32]);

impl View for Piecelist {
    type V = Seq<Square>;

    closed spec fn view(&self) -> Seq<Square> {
        self.0@
    }
}

impl Piecelist {
    /// The list always has one entry per piece slot.
    pub broadcast proof fn lemma_len(p: Piecelist)
        ensures
            #[trigger] p@.len() == 32,
    {
    }

    /// Create a new piece list with every slot on a1.
    pub fn new() -> (r: Piecelist)
        ensures
            forall|i: int| 0 <= i < 32 ==> (#[trigger] r@[i]).index() == 0,
    {
        Piecelist([Square::from_u8_unchecked(0); 32])
    }

    /// The square of a piece slot.
    pub fn get(&self, index: PieceIndex) -> (r: Square)
        ensures
            r == self@[index.index()],
    {
        self.0[index.into_inner() as usize]
    }

    /// Place the piece of slot `index` on `square`.
    pub fn add_piece(&mut self, index: PieceIndex, square: Square)
        ensures
            final(self)@ == old(self)@.update(index.index(), square),
    {
        let i = index.into_inner() as usize;
        self.0[i] = square;
    }

    /// Move the piece of slot `index` to `square`.
    pub fn move_piece(&mut self, index: PieceIndex, square: Square)
        ensures
            final(self)@ == old(self)@.update(index.index(), square),
    {
        let i = index.into_inner() as usize;
        self.0[i] = square;
    }
}

} // verus!
