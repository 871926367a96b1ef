//! Move lists: the fixed-capacity `tinyvec::ArrayVec` of 256 moves that move generation fills.
use vstd::prelude::*;

use crate::chessmove::Move;
use tinyvec::ArrayVec;

verus! {

#[verifier::external_type_specification]
#[verifier::external_body]
#[verifier::reject_recursive_types(A)]
pub struct ExArrayVec<A>(ArrayVec<A>);

/// The moves a move list holds, in order.
pub uninterp spec fn moves_of(v: ArrayVec<[Move; 256]>) -> Seq<Move>;

/// `ArrayVec::new`: an empty move list.
#[verifier::external_body]
pub(crate) fn new_list() -> (r: ArrayVec<[Move; 256]>)
    ensures
        moves_of(r) == Seq::<Move>::empty(),
{
    ArrayVec::new()
}

/// `ArrayVec::len`: the number of moves held, which never exceeds the capacity of 256.
#[verifier::external_body]
pub(crate) fn list_len(v: &ArrayVec<[Move; 256]>) -> (r: usize)
    ensures
        r == moves_of(*v).len(),
        r <= 256,
{
    v.len()
}

/// `ArrayVec::try_push`: append `m` if the list is below its capacity of 256, and report
/// whether it was appended; a full list is left as it was.
#[verifier::external_body]
pub(crate) fn try_push(v: &mut ArrayVec<[Move; 256]>, m: Move) -> (r: bool)
    ensures
        r == (moves_of(*old(v)).len() < 256),
        r ==> moves_of(*final(v)) == moves_of(*old(v)).push(m),
        !r ==> moves_of(*final(v)) == moves_of(*old(v)),
{
    v.try_push(m).is_none()
}

/// Indexing an `ArrayVec`: the move at position `i`.
#[verifier::external_body]
pub(crate) fn list_get(v: &ArrayVec<[Move; 256]>, i: usize) -> (r: Move)
    requires
        i < moves_of(*v).len(),
    ensures
        r == moves_of(*v)[i as int],
{
    v[i]
}

} // verus!
