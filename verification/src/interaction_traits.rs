//! The block in which an account operation takes place.
use vstd::prelude::*;

verus! {

/// The number and the time of a block.
#[derive(Clone, Copy, Debug, PartialEq, Eq, Structural)]
pub struct BlockState {
    pub number: u32,
    pub time: u64,
}

impl BlockState {
    pub fn new(block_number: u32, block_time: u64) -> (state: Self)
        ensures
            state.number == block_number,
            state.time == block_time,
    {
        Self { number: block_number, time: block_time }
    }
}

} // verus!
