//! The output-bucket choice of the evaluation network.
use vstd::prelude::*;

verus! {

/// The number of output buckets of the network.
pub const OUTPUT_BUCKETS: u8 = 8;

/// One of the network's output buckets, chosen by the material left on the board.
#[derive(Clone, Copy)]
pub struct OutputBucket(u8);

impl OutputBucket {
    /// The bucket number, below `OUTPUT_BUCKETS`.
    pub closed spec fn index(self) -> int {
        self.0 as int
    }

    /// The bucket numbered `output_bucket`, if there is one.
    pub fn new(output_bucket: u8) -> (r: Option<OutputBucket>)
        ensures
            r is Some <==> output_bucket < OUTPUT_BUCKETS,
            r matches Some(b) ==> b.index() == output_bucket,
    {
        if output_bucket >= OUTPUT_BUCKETS {
            return None;
        }
        Some(OutputBucket(output_bucket))
    }

    /// The bucket number.
    pub fn into_inner(self) -> (r: u8)
        ensures
            r == self.index(),
    {
        self.0
    }
}

} // verus!
