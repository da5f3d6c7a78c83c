use vstd::prelude::*;
use super::statement::Statement;
use super::frame::{Frame, empty};

verus! {

/// The frames in which two lists match up to a permutation.
pub struct PermutationFrameIterator;

impl PermutationFrameIterator {
    /// Matching `list1` against the permutations of `list2` under `frame`: no frames.
    pub fn new(list1: Vec<Statement>, list2: Vec<Statement>, frame: &Frame) -> (r: Vec<Frame>)
        ensures
            r@ == Seq::<Frame>::empty(),
    {
        empty()
    }
}

} // verus!
