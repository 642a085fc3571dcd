//! Events that the terrain reports to its users, such as the renderer.

use crate::terrain::position_types::{ChunkPosition, LocalBlockPosition};
use vstd::prelude::*;

verus! {

/// Something that happened to the terrain.
#[derive(Clone, Copy, Debug, PartialEq, Eq, Structural)]
pub enum TerrainEvent {
    /// A chunk finished loading.
    ChunkLoaded(ChunkPosition),
    /// A chunk was unloaded.
    ChunkUnloaded(ChunkPosition),
    /// The block at a position within a chunk was changed.
    BlockModified(ChunkPosition, LocalBlockPosition),
    /// The light data of a chunk changed.
    ChunkLightUpdate(ChunkPosition),
}

} // verus!
