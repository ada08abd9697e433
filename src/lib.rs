//! Spatial data model of a voxel world: a dense block array per chunk, and the
//! addressing scheme that maps signed world coordinates to a chunk coordinate
//! and a position inside that chunk.
use vstd::prelude::*;

pub mod block;
pub mod chunk;
pub mod coord;
pub mod world;

pub use block::{Block, AIR_ID};
pub use chunk::Chunk;
pub use coord::{
    div_euc, get_single_chunk_axis, get_single_chunk_index, mod_euc, ChunkIndex, Coordinate,
    CHUNK_AREA, CHUNK_VOLUME, CHUNK_WIDTH,
};
pub use world::World;

verus! {

} // verus!
