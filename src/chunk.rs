//! Dense storage of one chunk's blocks, addressed by in-chunk position.
use vstd::prelude::*;

use crate::block::{air, Block};
use crate::coord::{ChunkIndex, CHUNK_VOLUME};

verus! {

/// A cube of `CHUNK_WIDTH` blocks on each side, stored flat: `x` varies
/// fastest, then `y`, then `z`.
pub struct Chunk {
    blocks: Vec<Block>,
}

impl View for Chunk {
    type V = Seq<Block>;

    closed spec fn view(&self) -> Seq<Block> {
        self.blocks@
    }
}

/// The blocks of a chunk that holds nothing but air.
pub open spec fn empty_blocks() -> Seq<Block> {
    Seq::new(CHUNK_VOLUME as nat, |i: int| air())
}

impl Chunk {
    /// Every slot of the chunk is present.
    pub open spec fn wf(&self) -> bool {
        self@.len() == CHUNK_VOLUME
    }

    /// A chunk filled with air.
    pub fn new() -> (r: Chunk)
        ensures
            r.wf(),
            r@ == empty_blocks(),
    {
        let mut blocks: Vec<Block> = Vec::new();
        let mut i: usize = 0;
        while i < CHUNK_VOLUME
            invariant
                i <= CHUNK_VOLUME,
                blocks@ == Seq::new(i as nat, |j: int| air()),
            decreases CHUNK_VOLUME - i,
        {
            blocks.push(Block::default());
            i = i + 1;
            assert(blocks@ =~= Seq::new(i as nat, |j: int| air()));
        }
        Chunk { blocks }
    }

    pub fn get_block(&self, pos: &ChunkIndex) -> (r: &Block)
        requires
            self.wf(),
        ensures
            *r == self@[pos.offset()],
    {
        &self.blocks[pos.to_array_index()]
    }

    /// Exclusive access to one slot; what is written through it lands in that
    /// slot and nowhere else.
    pub fn get_mut_block(&mut self, pos: &ChunkIndex) -> (r: &mut Block)
        requires
            old(self).wf(),
        ensures
            *r == old(self)@[pos.offset()],
            final(self)@ == old(self)@.update(pos.offset(), *final(r)),
            final(self).wf(),
    {
        let i = pos.to_array_index();
        &mut self.blocks[i]
    }

    pub fn set_block(&mut self, pos: &ChunkIndex, block: Block)
        requires
            old(self).wf(),
        ensures
            final(self)@ == old(self)@.update(pos.offset(), block),
    {
        let i = pos.to_array_index();
        self.blocks.set(i, block);
    }

    /// Clears one slot back to air.
    pub fn remove_block(&mut self, pos: &ChunkIndex)
        requires
            old(self).wf(),
        ensures
            final(self)@ == old(self)@.update(pos.offset(), air()),
    {
        self.set_block(pos, Block::default())
    }
}

} // verus!
