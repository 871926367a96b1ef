//! The aspiration window of iterative deepening: each depth is searched in a narrow window
//! around the score of the last search, widened on the side where the score fell outside it.
use vstd::prelude::*;

verus! {

/// How a score returned by a search in a window relates to that window.
#[derive(Clone, Copy, Debug, PartialEq, Eq, Structural)]
pub enum WindowVerdict {
    /// At or below the lower bound: the window was widened below and the depth is searched
    /// again.
    FailLow,
    /// At or above the upper bound: the window was widened above and the depth is searched
    /// again.
    FailHigh,
    /// Strictly inside the window: the score stands.
    Exact,
}

/// The half-width a window starts with on each side at every new depth.
pub const INITIAL_HALF_WIDTH: i32 = 50;

/// An aspiration window: the score it is centred on and how far it reaches below and above.
#[derive(Clone, Copy, Debug, PartialEq, Eq, Structural)]
pub struct Aspiration {
    pub score: i32,
    pub below: i32,
    pub above: i32,
}

impl Aspiration {
    /// The window a new depth starts with: `INITIAL_HALF_WIDTH` either side of `score`.
    pub fn new(score: i32) -> (r: Self)
        ensures
            r == (Aspiration { score, below: INITIAL_HALF_WIDTH, above: INITIAL_HALF_WIDTH }),
    {
        Aspiration { score, below: INITIAL_HALF_WIDTH, above: INITIAL_HALF_WIDTH }
    }

    /// True if both bounds of the window fit in an `i32`.
    pub open spec fn fits(self) -> bool {
        &&& i32::MIN <= self.score - self.below <= i32::MAX
        &&& i32::MIN <= self.score + self.above <= i32::MAX
    }

    /// The lower and upper bounds of the window.
    pub fn window(&self) -> (r: (i32, i32))
        requires
            self.fits(),
        ensures
            r.0 == self.score - self.below,
            r.1 == self.score + self.above,
    {
        (self.score - self.below, self.score + self.above)
    }

    /// Take the score `result` that a search in this window returned. The window is centred on
    /// it from now on; at or below the lower bound, the reach below doubles; at or above the
    /// upper bound, the reach above doubles; in between, nothing widens.
    pub fn step(&mut self, result: i32) -> (v: WindowVerdict)
        requires
            old(self).fits(),
            i32::MIN / 2 <= old(self).below <= i32::MAX / 2,
            i32::MIN / 2 <= old(self).above <= i32::MAX / 2,
        ensures
            final(self).score == result,
            v == (if result <= old(self).score - old(self).below {
                WindowVerdict::FailLow
            } else if result >= old(self).score + old(self).above {
                WindowVerdict::FailHigh
            } else {
                WindowVerdict::Exact
            }),
            final(self).below == (if v == WindowVerdict::FailLow {
                2 * old(self).below
            } else {
                old(self).below as int
            }),
            final(self).above == (if v == WindowVerdict::FailHigh {
                2 * old(self).above
            } else {
                old(self).above as int
            }),
    {
        let (lower, upper) = self.window();
        self.score = result;
        if result <= lower {
            self.below = self.below * 2;
            WindowVerdict::FailLow
        } else if result >= upper {
            self.above = self.above * 2;
            WindowVerdict::FailHigh
        } else {
            WindowVerdict::Exact
        }
    }
}

} // verus!
