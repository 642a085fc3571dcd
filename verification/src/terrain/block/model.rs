//! Shapes of blocks: which faces they have and which faces stop light.

use crate::util::face::FaceIndex;
use vstd::prelude::*;

verus! {

/// represents one axis-aligned face of a block model
#[derive(Clone, Copy, Debug, PartialEq, Eq, Structural)]
pub struct BlockFace {
    pub texture_index: usize,
}

/// The shape of a block.
#[derive(Clone, Copy, Debug)]
pub enum BlockModel {
    Empty,
    FullBlock([BlockFace; 6]),
}

impl BlockModel {
    /// The face of this block in the given direction, if it has one.
    pub open spec fn face_spec(self, face_index: int) -> Option<BlockFace> {
        match self {
            BlockModel::Empty => None,
            BlockModel::FullBlock(faces) => Some(faces[face_index]),
        }
    }

    /// The face of this block in the given direction, if it has one.
    pub fn face(&self, face_index: FaceIndex) -> (r: Option<BlockFace>)
        requires
            face_index.0 < 6,
        ensures
            r == self.face_spec(face_index.0 as int),
    {
        match self {
            BlockModel::Empty => None,
            BlockModel::FullBlock(faces) => Some(faces[face_index.as_usize()]),
        }
    }

    /// True if no light or sight passes through the block.
    pub fn is_opaque(&self) -> (r: bool)
        ensures
            r == (*self is FullBlock),
    {
        match self {
            BlockModel::Empty => false,
            BlockModel::FullBlock(_) => true,
        }
    }

    /// Returns a bitmask of the faces of the block that are opaque, i.e. light
    /// cannot pass through that face
    /// If the result is all zeroes, the block is completely transparent
    pub fn opaque_faces_mask(&self) -> (r: u8)
        ensures
            r == (if *self is FullBlock { 0b111111u8 } else { 0u8 }),
    {
        match self {
            BlockModel::Empty => 0b000000,
            BlockModel::FullBlock(_) => 0b111111,
        }
    }

    /// True if light can pass through the given face of the block
    pub fn is_transparent_in_direction(&self, face_index: FaceIndex) -> (r: bool)
        requires
            face_index.0 < 8,
        ensures
            r == (*self is Empty || face_index.0 >= 6),
    {
        let mask = self.opaque_faces_mask();
        let i = face_index.as_usize() as u8;
        proof {
            assert(i < 8 ==> (0u8 & (1u8 << i) == 0) && ((0b111111u8 & (1u8 << i) == 0) <==> i >= 6))
                by (bit_vector);
        }
        mask & (1u8 << i) == 0
    }
}

} // verus!
