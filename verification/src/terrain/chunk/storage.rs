//! Storage for a chunk's block data in memory: a single value for chunks made of one
//! kind of block, and one layer of blocks per y coordinate otherwise.

use crate::terrain::block::BlockId;
use crate::terrain::chunk::{CHUNK_SIZE, CHUNK_SIZE_CUBED, CHUNK_SIZE_SQUARED};
use crate::terrain::position_types::LocalBlockPosition;
use itertools::Itertools;
use vstd::prelude::*;

verus! {

/// Index within a y layer of the block at array index `i`: `32 * z + x`.
pub open spec fn index_in_layer_spec(i: int) -> int {
    32 * (i / 1024) + i % 32
}

/// The y coordinate of the block at array index `i`.
pub open spec fn layer_of_spec(i: int) -> int {
    (i / 32) % 32
}

/// If every block of `blocks` is the same and there is at least one, that block
/// (`blocks.iter().all_equal_value()`).
#[verifier::external_body]
fn all_equal_value(blocks: &[BlockId]) -> (r: Option<BlockId>)
    ensures
        match r {
            Some(b) => blocks@.len() > 0 && forall|i: int| 0 <= i < blocks@.len() ==> blocks@[i] == b,
            None => blocks@.len() == 0 || exists|i: int, j: int|
                0 <= i < blocks@.len() && 0 <= j < blocks@.len() && blocks@[i] != blocks@[j],
        },
{
    blocks.iter().all_equal_value().ok().copied()
}

/// Storage for a chunk's block data in memory
#[derive(Clone, Debug)]
pub enum ChunkBlockStorage {
    Uniform(BlockId),
    Layered(Vec<Vec<BlockId>>),
}

impl ChunkBlockStorage {
    /// The layers have the right sizes.
    pub open spec fn wf(&self) -> bool {
        match self {
            ChunkBlockStorage::Uniform(_) => true,
            ChunkBlockStorage::Layered(layers) => layers@.len() == 32 && forall|y: int|
                0 <= y < 32 ==> #[trigger] layers@[y]@.len() == 1024,
        }
    }

    /// The block at array index `i`.
    pub open spec fn block_at(&self, i: int) -> BlockId {
        match self {
            ChunkBlockStorage::Uniform(b) => *b,
            ChunkBlockStorage::Layered(layers) => layers@[layer_of_spec(i)]@[index_in_layer_spec(i)],
        }
    }

    /// Every stored block is a registered block kind.
    pub open spec fn all_registered(&self) -> bool {
        forall|i: int| 0 <= i < 32768 ==> (#[trigger] self.block_at(i)).0 < 5
    }

    /// Initialize the block storage from an array of block IDs indexed by
    /// `LocalBlockPosition::get_array_index`
    pub fn new(blocks: Vec<BlockId>) -> (r: Self)
        requires
            blocks@.len() == 32768 || (blocks@.len() > 0 && forall|i: int, j: int|
                0 <= i < blocks@.len() && 0 <= j < blocks@.len() ==> blocks@[i] == blocks@[j]),
        ensures
            r.wf(),
            blocks@.len() == 32768 ==> forall|i: int| 0 <= i < 32768 ==> r.block_at(i) == blocks@[i],
            (r is Uniform) == (blocks@.len() > 0 && forall|i: int, j: int|
                0 <= i < blocks@.len() && 0 <= j < blocks@.len() ==> blocks@[i] == blocks@[j]),
    {
        match all_equal_value(blocks.as_slice()) {
            Some(block_id) => {
                // uniform
                let r = Self::Uniform(block_id);
                assert forall|i: int, j: int|
                    0 <= i < blocks@.len() && 0 <= j < blocks@.len() implies blocks@[i]
                    == blocks@[j] by {
                    assert(blocks@[i] == block_id && blocks@[j] == block_id);
                }
                r
            },
            None => {
                // layered
                let mut layers: Vec<Vec<BlockId>> = Vec::new();
                let mut y: usize = 0;
                while y < CHUNK_SIZE
                    invariant
                        blocks@.len() == 32768,
                        y <= 32,
                        layers@.len() == y,
                        forall|yy: int|
                            0 <= yy < y ==> #[trigger] layers@[yy]@.len() == 1024 && forall|k: int|
                                0 <= k < 1024 ==> layers@[yy]@[k] == blocks@[1024 * (k / 32) + 32
                                    * yy + k % 32],
                    decreases 32 - y,
                {
                    let mut layer: Vec<BlockId> = Vec::new();
                    let mut k: usize = 0;
                    while k < CHUNK_SIZE_SQUARED
                        invariant
                            blocks@.len() == 32768,
                            y < 32,
                            k <= 1024,
                            layer@.len() == k,
                            forall|kk: int|
                                0 <= kk < k ==> #[trigger] layer@[kk] == blocks@[1024 * (kk / 32) + 32
                                    * y + kk % 32],
                        decreases 1024 - k,
                    {
                        let index_in_blocks = 1024 * (k / 32) + 32 * y + k % 32;
                        layer.push(blocks[index_in_blocks]);
                        k = k + 1;
                    }
                    layers.push(layer);
                    y = y + 1;
                }
                let r = Self::Layered(layers);
                proof {
                    assert forall|i: int| 0 <= i < 32768 implies r.block_at(i) == blocks@[i] by {
                        lemma_layer_index(i);
                        let y = layer_of_spec(i);
                        let k = index_in_layer_spec(i);
                        assert(layers@[y]@.len() == 1024);
                        assert(layers@[y]@[k] == blocks@[1024 * (k / 32) + 32 * y + k % 32]);
                    }
                }
                r
            },
        }
    }

    /// Returns the chunk data as an array of block IDs indexed by
    /// `LocalBlockPosition::get_array_index`
    pub fn as_block_array(&self) -> (r: Vec<BlockId>)
        requires
            self.wf(),
        ensures
            r@.len() == 32768,
            forall|i: int| 0 <= i < 32768 ==> r@[i] == self.block_at(i),
    {
        let mut v: Vec<BlockId> = Vec::new();
        let mut i: usize = 0;
        while i < CHUNK_SIZE_CUBED
            invariant
                self.wf(),
                i <= 32768,
                v@.len() == i,
                forall|j: int| 0 <= j < i ==> v@[j] == self.block_at(j),
            decreases 32768 - i,
        {
            let b = self.get_block(LocalBlockPosition::from_array_index(i));
            v.push(b);
            i = i + 1;
        }
        v
    }

    /// Returns the block ID at the given position
    pub fn get_block(&self, pos: LocalBlockPosition) -> (r: BlockId)
        requires
            self.wf(),
            pos.is_valid(),
        ensures
            r == self.block_at(pos.index()),
    {
        match self {
            Self::Uniform(block_id) => *block_id,
            Self::Layered(layers) => {
                proof {
                    lemma_position_layer_index(pos);
                }
                let index_in_layer = (CHUNK_SIZE as u32 * pos.0.z + pos.0.x) as usize;
                let y = pos.0.y as usize;
                layers[y][index_in_layer]
            },
        }
    }

    /// Sets the block ID at the given position, splitting a uniform chunk into layers
    pub fn set_block(&mut self, pos: LocalBlockPosition, new_id: BlockId)
        requires
            old(self).wf(),
            pos.is_valid(),
        ensures
            final(self).wf(),
            final(self).block_at(pos.index()) == new_id,
            forall|i: int|
                0 <= i < 32768 && i != pos.index() ==> final(self).block_at(i) == old(self).block_at(
                    i,
                ),
    {
        proof {
            lemma_position_layer_index(pos);
        }
        let index_in_layer = (CHUNK_SIZE as u32 * pos.0.z + pos.0.x) as usize;
        let y = pos.0.y as usize;
        let mut current = Self::Uniform(BlockId(0));
        std::mem::swap(&mut current, self);
        let mut layers = match current {
            Self::Uniform(block_id) => Self::repeat_layers(block_id),
            Self::Layered(layers) => layers,
        };
        let ghost before = layers@;
        let mut layer = Vec::new();
        std::mem::swap(&mut layer, &mut layers[y]);
        layer.set(index_in_layer, new_id);
        layers.set(y, layer);
        *self = Self::Layered(layers);
        proof {
            assert forall|i: int|
                0 <= i < 32768 && i != pos.index() implies self.block_at(i) == old(self).block_at(
                i,
            ) by {
                lemma_layer_index(i);
                lemma_layer_index(pos.index());
            }
        }
    }

    /// Thirty-two layers filled with one block.
    fn repeat_layers(block_id: BlockId) -> (r: Vec<Vec<BlockId>>)
        ensures
            r@.len() == 32,
            forall|y: int| 0 <= y < 32 ==> #[trigger] r@[y]@.len() == 1024,
            forall|y: int, k: int| 0 <= y < 32 && 0 <= k < 1024 ==> r@[y]@[k] == block_id,
    {
        let mut layers: Vec<Vec<BlockId>> = Vec::new();
        while layers.len() < CHUNK_SIZE
            invariant
                layers@.len() <= 32,
                forall|y: int| 0 <= y < layers@.len() ==> #[trigger] layers@[y]@.len() == 1024,
                forall|y: int, k: int|
                    0 <= y < layers@.len() && 0 <= k < 1024 ==> layers@[y]@[k] == block_id,
            decreases 32 - layers@.len(),
        {
            let mut layer: Vec<BlockId> = Vec::new();
            while layer.len() < CHUNK_SIZE_SQUARED
                invariant
                    layer@.len() <= 1024,
                    forall|k: int| 0 <= k < layer@.len() ==> layer@[k] == block_id,
                decreases 1024 - layer@.len(),
            {
                layer.push(block_id);
            }
            layers.push(layer);
        }
        layers
    }
}

/// The layer and index within the layer of a valid array index, and the array index
/// they come from.
proof fn lemma_layer_index(i: int)
    requires
        0 <= i < 32768,
    ensures
        0 <= layer_of_spec(i) < 32,
        0 <= index_in_layer_spec(i) < 1024,
        1024 * (index_in_layer_spec(i) / 32) + 32 * layer_of_spec(i) + index_in_layer_spec(i) % 32
            == i,
        forall|j: int|
            0 <= j < 32768 && j != i ==> layer_of_spec(j) != layer_of_spec(i) || index_in_layer_spec(j)
                != index_in_layer_spec(i),
{
    let z = i / 1024;
    let y = (i / 32) % 32;
    let x = i % 32;
    assert(i == 1024 * z + 32 * y + x) by {
        vstd::arithmetic::div_mod::lemma_fundamental_div_mod(i, 1024);
        vstd::arithmetic::div_mod::lemma_fundamental_div_mod(i, 32);
        vstd::arithmetic::div_mod::lemma_fundamental_div_mod(i / 32, 32);
        vstd::arithmetic::div_mod::lemma_div_denominator(i, 32, 32);
    }
    assert((32 * z + x) / 32 == z && (32 * z + x) % 32 == x) by {
        vstd::arithmetic::div_mod::lemma_fundamental_div_mod_converse(32 * z + x, 32, z, x);
    }
    assert forall|j: int|
        0 <= j < 32768 && j != i implies layer_of_spec(j) != layer_of_spec(i) || index_in_layer_spec(j)
        != index_in_layer_spec(i) by {
        let zj = j / 1024;
        let xj = j % 32;
        vstd::arithmetic::div_mod::lemma_fundamental_div_mod(j, 1024);
        vstd::arithmetic::div_mod::lemma_fundamental_div_mod(j, 32);
        vstd::arithmetic::div_mod::lemma_fundamental_div_mod(j / 32, 32);
        vstd::arithmetic::div_mod::lemma_div_denominator(j, 32, 32);
        if layer_of_spec(j) == layer_of_spec(i) && index_in_layer_spec(j) == index_in_layer_spec(i) {
            vstd::arithmetic::div_mod::lemma_fundamental_div_mod_converse(32 * zj + xj, 32, zj, xj);
            assert(zj == z && xj == x);
        }
    }
}

/// For a valid position, the layer is its y coordinate and the index in the layer is `32 * z + x`.
proof fn lemma_position_layer_index(pos: LocalBlockPosition)
    requires
        pos.is_valid(),
    ensures
        layer_of_spec(pos.index()) == pos.0.y,
        index_in_layer_spec(pos.index()) == 32 * pos.0.z + pos.0.x,
{
    crate::terrain::position_types::lemma_array_index_roundtrip(pos);
    let i = pos.index();
    vstd::arithmetic::div_mod::lemma_fundamental_div_mod_converse(
        i,
        1024,
        pos.0.z as int,
        32 * pos.0.y + pos.0.x,
    );
}

/// Storage for a chunk's emitted light data in memory
#[derive(Clone, Debug)]
pub struct ChunkLightStorage {}

impl ChunkLightStorage {
    /// An empty light storage.
    pub fn new() -> (r: Self)
        ensures
            r == (ChunkLightStorage {  }),
    {
        Self {  }
    }
}

} // verus!
