//! The voxel value stored in each slot of a chunk.
use vstd::prelude::*;

verus! {

/// A single voxel, identified by a small integer.
#[derive(Clone, Copy, Debug, PartialEq, Eq, Structural)]
pub struct Block {
    pub id: u16,
}

/// Identifier reserved for the empty block.
pub const AIR_ID: u16 = 0;

/// The empty block, which marks a slot where nothing is placed.
pub open spec fn air() -> Block {
    Block { id: AIR_ID }
}

impl Default for Block {
    fn default() -> (r: Block)
        ensures
            r == air(),
    {
        Block { id: AIR_ID }
    }
}

} // verus!
