//! Block kinds and the temporary block registry.

pub mod model;

use crate::terrain::block::model::{BlockFace, BlockModel};
use crate::util::vector::IVec3;
use vstd::prelude::*;

verus! {

/// Numeric identifier for a `Block`
#[derive(Clone, Copy, Debug, PartialEq, Eq, Hash, Structural)]
pub struct BlockId(pub u16);

impl BlockId {
    /// The identifier as an index into the block registry.
    pub fn as_usize(&self) -> (r: usize)
        ensures
            r == self.0,
    {
        self.0 as usize
    }
}

/// Represents a kind of block in the world
#[derive(Clone, Debug)]
pub struct Block {
    pub model: BlockModel,
    pub emission: IVec3,
}

/// Number of registered block kinds.
pub const BLOCK_COUNT: usize = 5;

/// Identifier of air (`BLOCK_AIR`).
pub const BLOCK_AIR_ID: u16 = 0;

/// Identifier of dirt (`BLOCK_DIRT`).
pub const BLOCK_DIRT_ID: u16 = 1;

/// Identifier of grass (`BLOCK_GRASS`).
pub const BLOCK_GRASS_ID: u16 = 2;

/// Identifier of wood (`BLOCK_WOOD`).
pub const BLOCK_WOOD_ID: u16 = 3;

/// Identifier of the orange lamp (`BLOCK_LAMP_ORANGE`).
pub const BLOCK_LAMP_ORANGE_ID: u16 = 4;

/// Texture index of each face of block `id`, if it is a full block.
pub open spec fn block_textures_spec(id: int) -> Option<Seq<usize>> {
    if id == 1 {
        Some(seq![0usize, 0, 0, 0, 0, 0])
    } else if id == 2 {
        Some(seq![1usize, 2, 1, 1, 0, 1])
    } else if id == 3 {
        Some(seq![3usize, 3, 3, 3, 3, 3])
    } else if id == 4 {
        Some(seq![4usize, 4, 4, 4, 4, 4])
    } else {
        None
    }
}

/// The registered model of block `id`.
pub open spec fn block_model_spec(id: int) -> BlockModel {
    match block_textures_spec(id) {
        None => BlockModel::Empty,
        Some(t) => BlockModel::FullBlock(
            [
                BlockFace { texture_index: t[0] },
                BlockFace { texture_index: t[1] },
                BlockFace { texture_index: t[2] },
                BlockFace { texture_index: t[3] },
                BlockFace { texture_index: t[4] },
                BlockFace { texture_index: t[5] },
            ],
        ),
    }
}

/// The registered light emission of block `id`.
pub open spec fn block_emission_spec(id: int) -> IVec3 {
    if id == 4 {
        IVec3 { x: 15, y: 10, z: 5 }
    } else {
        IVec3 { x: 0, y: 0, z: 0 }
    }
}

/// True if block `id` is a full, opaque block.
pub open spec fn block_is_opaque_spec(id: int) -> bool {
    block_textures_spec(id) is Some
}

fn full_block(t0: usize, t1: usize, t2: usize, t3: usize, t4: usize, t5: usize) -> (r: BlockModel)
    ensures
        r == BlockModel::FullBlock(
            [
                BlockFace { texture_index: t0 },
                BlockFace { texture_index: t1 },
                BlockFace { texture_index: t2 },
                BlockFace { texture_index: t3 },
                BlockFace { texture_index: t4 },
                BlockFace { texture_index: t5 },
            ],
        ),
{
    BlockModel::FullBlock(
        [
            BlockFace { texture_index: t0 },
            BlockFace { texture_index: t1 },
            BlockFace { texture_index: t2 },
            BlockFace { texture_index: t3 },
            BlockFace { texture_index: t4 },
            BlockFace { texture_index: t5 },
        ],
    )
}

/// The registry entry of block `id` (`BLOCKS[id]`).
pub fn get_block(id: BlockId) -> (r: Block)
    requires
        id.0 < BLOCK_COUNT,
    ensures
        r.model == block_model_spec(id.0 as int),
        r.emission == block_emission_spec(id.0 as int),
{
    let zero = IVec3 { x: 0, y: 0, z: 0 };
    if id.0 == BLOCK_AIR_ID {
        Block { model: BlockModel::Empty, emission: zero }
    } else if id.0 == BLOCK_DIRT_ID {
        Block { model: full_block(0, 0, 0, 0, 0, 0), emission: zero }
    } else if id.0 == BLOCK_GRASS_ID {
        Block { model: full_block(1, 2, 1, 1, 0, 1), emission: zero }
    } else if id.0 == BLOCK_WOOD_ID {
        Block { model: full_block(3, 3, 3, 3, 3, 3), emission: zero }
    } else {
        Block { model: full_block(4, 4, 4, 4, 4, 4), emission: IVec3 { x: 15, y: 10, z: 5 } }
    }
}

/// True if block `id` is opaque (`BLOCKS[id].model.is_opaque()`).
pub fn block_is_opaque(id: BlockId) -> (r: bool)
    requires
        id.0 < BLOCK_COUNT,
    ensures
        r == block_is_opaque_spec(id.0 as int),
{
    id.0 != BLOCK_AIR_ID
}

/// True if light can enter block `id` through face `face_index`
/// (`BLOCKS[id].model.is_transparent_in_direction(face_index)`).
pub fn block_is_transparent_in_direction(id: BlockId, face_index: usize) -> (r: bool)
    requires
        id.0 < BLOCK_COUNT,
        face_index < 6,
    ensures
        r == !block_is_opaque_spec(id.0 as int),
{
    id.0 == BLOCK_AIR_ID
}

} // verus!
