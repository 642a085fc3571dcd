//! The plain way of storing a chunk's blocks: one block ID per position, in one array.

use crate::renderer::terrain::meshing::uvec3_to_chunk_index;
use crate::terrain::block::BlockId;
use crate::terrain::position_types::LocalBlockPosition;
use crate::util::vector::UVec3;
use vstd::prelude::*;

verus! {

/// The array index of `pos`, ordered by z, then y, then x.
pub open spec fn storage_index(pos: UVec3) -> int {
    LocalBlockPosition(pos).index()
}

/// `pos` lies within a chunk.
pub open spec fn in_chunk(pos: UVec3) -> bool {
    pos.x < 32 && pos.y < 32 && pos.z < 32
}

/// A way of storing the block IDs of a chunk.
pub trait ChunkStorage: Sized {
    /// The storage is usable.
    spec fn wf(&self) -> bool;

    /// The stored block IDs, ordered by z, then y, then x.
    spec fn blocks_spec(&self) -> Seq<BlockId>;

    /// Initialize the chunk storage with an array of block IDs
    fn from_block_array(blocks: Vec<BlockId>) -> (r: Self)
        requires
            blocks@.len() == 32768,
        ensures
            r.wf(),
            r.blocks_spec() == blocks@,
    ;

    /// Returns the chunk data as an array of block IDs
    fn as_block_array(&self) -> (r: Vec<BlockId>)
        requires
            self.wf(),
        ensures
            r@ == self.blocks_spec(),
    ;

    /// Returns the block ID at the given position
    fn get(&self, pos: UVec3) -> (r: BlockId)
        requires
            self.wf(),
            in_chunk(pos),
        ensures
            r == self.blocks_spec()[storage_index(pos)],
    ;

    /// Sets the block ID at the given position
    fn set(&mut self, pos: UVec3, id: BlockId)
        requires
            old(self).wf(),
            in_chunk(pos),
        ensures
            final(self).wf(),
            final(self).blocks_spec() == old(self).blocks_spec().update(storage_index(pos), id),
    ;
}

/// Chunk storage that keeps every block ID.
#[derive(Clone)]
pub struct SimpleChunkStorage {
    blocks: Vec<BlockId>,
}

impl ChunkStorage for SimpleChunkStorage {
    closed spec fn wf(&self) -> bool {
        self.blocks@.len() == 32768
    }

    closed spec fn blocks_spec(&self) -> Seq<BlockId> {
        self.blocks@
    }

    fn from_block_array(blocks: Vec<BlockId>) -> (r: Self) {
        SimpleChunkStorage { blocks }
    }

    fn as_block_array(&self) -> (r: Vec<BlockId>) {
        let mut out: Vec<BlockId> = Vec::new();
        let mut i: usize = 0;
        while i < self.blocks.len()
            invariant
                i <= self.blocks@.len(),
                out@ == self.blocks@.subrange(0, i as int),
            decreases self.blocks@.len() - i,
        {
            out.push(self.blocks[i]);
            i = i + 1;
            assert(out@ == self.blocks@.subrange(0, i as int));
        }
        assert(out@ == self.blocks@);
        out
    }

    fn get(&self, pos: UVec3) -> (r: BlockId) {
        self.blocks[uvec3_to_chunk_index(pos)]
    }

    fn set(&mut self, pos: UVec3, new_id: BlockId) {
        let i = uvec3_to_chunk_index(pos);
        self.blocks.set(i, new_id);
    }
}

/// A chunk built on a way of storing its blocks.
pub struct GenericChunk<Storage: ChunkStorage> {
    pub storage: Storage,
}

impl<Storage: ChunkStorage> GenericChunk<Storage> {
    /// A chunk of air.
    pub fn new() -> (r: Self)
        ensures
            r.storage.wf(),
            r.storage.blocks_spec() == Seq::new(32768, |i: int| BlockId(0)),
    {
        let mut blocks: Vec<BlockId> = Vec::new();
        while blocks.len() < 32768
            invariant
                blocks@.len() <= 32768,
                forall|i: int| 0 <= i < blocks@.len() ==> #[trigger] blocks@[i] == BlockId(0),
            decreases 32768 - blocks@.len(),
        {
            blocks.push(BlockId(0));
        }
        assert(blocks@ == Seq::new(32768, |i: int| BlockId(0)));
        GenericChunk { storage: Storage::from_block_array(blocks) }
    }
}

} // verus!
