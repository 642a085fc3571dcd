//! The six sides of a chunk: which border tiles are open, and the light on the border.
//! The tiles of a side are indexed `CHUNK_SIZE * v + u`, where `u` runs along the face's
//! first texture direction and `v` along its second.

use crate::terrain::block::{block_is_opaque_spec, get_block};
use crate::terrain::chunk::Chunk;
use crate::terrain::lighting::emitted_light::EmittedLight;
use crate::terrain::lighting::skylight::Skylight;
use crate::terrain::position_types::LocalBlockPosition;
use crate::util::vector::UVec3;
use crate::util::face::FaceIndex;
use vstd::prelude::*;

verus! {

/// The block of this chunk on side `side` at tile `(u, v)`: the side's outer layer,
/// with `u` along the face's first texture direction and `v` along its second
/// (`FACE_NORMALS[side].max(0) * 31 + FACE_TANGENTS[side].abs() * u + FACE_BITANGENTS[side].abs() * v`).
pub open spec fn side_position_spec(side: int, u: int, v: int) -> LocalBlockPosition {
    let (x, y, z) = if side == 0 {
        (31, v, u)
    } else if side == 1 {
        (v, 31, u)
    } else if side == 2 {
        (u, v, 31)
    } else if side == 3 {
        (0, v, u)
    } else if side == 4 {
        (v, 0, u)
    } else {
        (u, v, 0)
    };
    LocalBlockPosition(UVec3 { x: x as u32, y: y as u32, z: z as u32 })
}

/// The block of this chunk on side `side` at tile `(u, v)`.
pub fn side_position(side: usize, u: u32, v: u32) -> (r: LocalBlockPosition)
    requires
        side < 6,
        u < 32,
        v < 32,
    ensures
        r == side_position_spec(side as int, u as int, v as int),
        r.is_valid(),
{
    if side == 0 {
        LocalBlockPosition::new(31, v, u)
    } else if side == 1 {
        LocalBlockPosition::new(v, 31, u)
    } else if side == 2 {
        LocalBlockPosition::new(u, v, 31)
    } else if side == 3 {
        LocalBlockPosition::new(0, v, u)
    } else if side == 4 {
        LocalBlockPosition::new(v, 0, u)
    } else {
        LocalBlockPosition::new(u, v, 0)
    }
}

/// Represents a side of a chunk, storing whether each tile is solid (false) or empty (true).
#[derive(Clone, Debug)]
pub struct ChunkSideFaces {
    pub faces: Vec<bool>,
}

/// Represents a side of a chunk, the light data for each block on the edge
#[derive(Clone, Debug)]
pub struct ChunkSideLight {
    pub emitted: Vec<EmittedLight>,
    pub sky: Vec<Skylight>,
}

impl ChunkSideFaces {
    /// One entry per tile.
    pub open spec fn wf(&self) -> bool {
        self.faces@.len() == 1024
    }
}

impl ChunkSideLight {
    /// One storable value per tile.
    pub open spec fn wf(&self) -> bool {
        &&& self.emitted@.len() == 1024
        &&& self.sky@.len() == 1024
        &&& forall|i: int| 0 <= i < 1024 ==> (#[trigger] self.emitted@[i])@ < 0x1000
        &&& forall|i: int| 0 <= i < 1024 ==> (#[trigger] self.sky@[i]).0 < 16
    }
}

} // verus!

verus! {

/// Tile `idx` of side `side` of `chunk` is open: the block there shows no face
/// towards the neighbouring chunk.
pub open spec fn side_tile_open(chunk: Chunk, side: int, idx: int) -> bool {
    !block_is_opaque_spec(
        chunk.blocks_spec().block_at(side_position_spec(side, idx % 32, idx / 32).index()).0 as int,
    )
}

/// The position of tile `idx` of side `side`.
pub open spec fn side_tile_position(side: int, idx: int) -> LocalBlockPosition {
    side_position_spec(side, idx % 32, idx / 32)
}

impl ChunkSideFaces {
    /// The open tiles of side `side` of `chunk`.
    fn of_side(chunk: &Chunk, side: usize) -> (r: Self)
        requires
            chunk.wf(),
            side < 6,
        ensures
            r.wf(),
            forall|idx: int| 0 <= idx < 1024 ==> r.faces@[idx] == side_tile_open(*chunk, side as int, idx),
    {
        let mut faces: Vec<bool> = Vec::new();
        let mut v: u32 = 0;
        while v < 32
            invariant
                chunk.wf(),
                side < 6,
                v <= 32,
                faces@.len() == 32 * v,
                forall|idx: int| 0 <= idx < faces@.len() ==> faces@[idx] == side_tile_open(*chunk, side as int, idx),
            decreases 32 - v,
        {
            let mut u: u32 = 0;
            while u < 32
                invariant
                    chunk.wf(),
                    side < 6,
                    v < 32,
                    u <= 32,
                    faces@.len() == 32 * v + u,
                    forall|idx: int| 0 <= idx < faces@.len() ==> faces@[idx] == side_tile_open(*chunk, side as int, idx),
                decreases 32 - u,
            {
                let pos_in_chunk = side_position(side, u, v);
                let block_id = chunk.get_block(pos_in_chunk);
                let block = get_block(block_id);
                let open = block.model.face(FaceIndex(side)).is_none();
                proof {
                    let idx = 32 * v + u;
                    assert(idx % 32 == u && idx / 32 == v);
                }
                faces.push(open);
                u = u + 1;
            }
            v = v + 1;
        }
        ChunkSideFaces { faces }
    }

    /// The +x side of the chunk
    pub fn px(chunk: &Chunk) -> (r: Self)
        requires
            chunk.wf(),
        ensures
            r.wf(),
            forall|idx: int| 0 <= idx < 1024 ==> r.faces@[idx] == side_tile_open(*chunk, 0, idx),
    {
        Self::of_side(chunk, 0)
    }

    /// The +y side of the chunk
    pub fn py(chunk: &Chunk) -> (r: Self)
        requires
            chunk.wf(),
        ensures
            r.wf(),
            forall|idx: int| 0 <= idx < 1024 ==> r.faces@[idx] == side_tile_open(*chunk, 1, idx),
    {
        Self::of_side(chunk, 1)
    }

    /// The +z side of the chunk
    pub fn pz(chunk: &Chunk) -> (r: Self)
        requires
            chunk.wf(),
        ensures
            r.wf(),
            forall|idx: int| 0 <= idx < 1024 ==> r.faces@[idx] == side_tile_open(*chunk, 2, idx),
    {
        Self::of_side(chunk, 2)
    }

    /// The -x side of the chunk
    pub fn nx(chunk: &Chunk) -> (r: Self)
        requires
            chunk.wf(),
        ensures
            r.wf(),
            forall|idx: int| 0 <= idx < 1024 ==> r.faces@[idx] == side_tile_open(*chunk, 3, idx),
    {
        Self::of_side(chunk, 3)
    }

    /// The -y side of the chunk
    pub fn ny(chunk: &Chunk) -> (r: Self)
        requires
            chunk.wf(),
        ensures
            r.wf(),
            forall|idx: int| 0 <= idx < 1024 ==> r.faces@[idx] == side_tile_open(*chunk, 4, idx),
    {
        Self::of_side(chunk, 4)
    }

    /// The -z side of the chunk
    pub fn nz(chunk: &Chunk) -> (r: Self)
        requires
            chunk.wf(),
        ensures
            r.wf(),
            forall|idx: int| 0 <= idx < 1024 ==> r.faces@[idx] == side_tile_open(*chunk, 5, idx),
    {
        Self::of_side(chunk, 5)
    }

    /// The sides of the six chunks around a chunk that face it, in face order: the -x
    /// side of the chunk at +x, the -y side of the chunk at +y, and so on; `None` where
    /// the neighbour `neighbours[i]` across face `i` is not loaded.
    pub fn get_surrounding_sides(neighbours: &[Option<&Chunk>]) -> (r: Vec<Option<ChunkSideFaces>>)
        requires
            neighbours@.len() == 6,
            forall|i: int| 0 <= i < 6 ==> ((#[trigger] neighbours@[i]) matches Some(c) ==> c.wf()),
        ensures
            r@.len() == 6,
            forall|i: int|
                0 <= i < 6 ==> ((#[trigger] r@[i]) is Some <==> neighbours@[i] is Some),
            forall|i: int| 0 <= i < 6 && (#[trigger] r@[i]) is Some ==> r@[i]->0.wf(),
            forall|i: int, idx: int|
                0 <= i < 6 && 0 <= idx < 1024 && r@[i] is Some ==> #[trigger] r@[i]->0.faces@[idx] == side_tile_open(*neighbours@[i]->0, (i + 3) % 6, idx),
    {
        let mut sides: Vec<Option<ChunkSideFaces>> = Vec::new();
        let mut i: usize = 0;
        while i < 6
            invariant
                neighbours@.len() == 6,
                forall|i: int| 0 <= i < 6 ==> ((#[trigger] neighbours@[i]) matches Some(c) ==> c.wf()),
                i <= 6,
                sides@.len() == i,
                forall|j: int| 0 <= j < i ==> ((#[trigger] sides@[j]) is Some <==> neighbours@[j] is Some),
                forall|j: int| 0 <= j < i && (#[trigger] sides@[j]) is Some ==> sides@[j]->0.wf(),
                forall|j: int, idx: int|
                    0 <= j < i && 0 <= idx < 1024 && sides@[j] is Some ==> #[trigger] sides@[j]->0.faces@[idx] == side_tile_open(*neighbours@[j]->0, (j + 3) % 6, idx),
            decreases 6 - i,
        {
            let side = match neighbours[i] {
                Some(chunk) => {
                    let opposite = FaceIndex(i).opposite().as_usize();
                    proof {
                        assert(opposite == (i + 3) % 6);
                    }
                    Some(Self::of_side(chunk, opposite))
                },
                None => None,
            };
            let ghost before = sides@;
            sides.push(side);
            proof {
                assert forall|j: int, idx: int|
                    0 <= j < i + 1 && 0 <= idx < 1024 && sides@[j] is Some implies #[trigger] sides@[j]->0.faces@[idx] == side_tile_open(*neighbours@[j]->0, (j + 3) % 6, idx) by {
                    if j < i {
                        assert(sides@[j] == before[j]);
                    }
                }
            }
            i = i + 1;
        }
        sides
    }
}

impl ChunkSideLight {
    /// The light on side `side` of `chunk`.
    fn of_side(chunk: &Chunk, side: usize) -> (r: Self)
        requires
            chunk.wf(),
            side < 6,
        ensures
            r.wf(),
            forall|idx: int|
                0 <= idx < 1024 ==> r.emitted@[idx]@ == chunk.light_spec().emitted_at(
                    side_tile_position(side as int, idx).index(),
                ) && r.sky@[idx].0 == chunk.light_spec().sky_at(side_tile_position(side as int, idx).index()),
    {
        let mut emitted: Vec<EmittedLight> = Vec::new();
        let mut sky: Vec<Skylight> = Vec::new();
        let light_store = chunk.light_store();
        let mut v: u32 = 0;
        while v < 32
            invariant
                chunk.wf(),
                *light_store == chunk.light_spec(),
                light_store.wf(),
                side < 6,
                v <= 32,
                emitted@.len() == 32 * v,
                sky@.len() == 32 * v,
                forall|idx: int|
                    0 <= idx < emitted@.len() ==> emitted@[idx]@ == light_store.emitted_at(
                        side_tile_position(side as int, idx).index(),
                    ) && sky@[idx].0 == light_store.sky_at(side_tile_position(side as int, idx).index())
                        && emitted@[idx]@ < 0x1000 && sky@[idx].0 < 16,
            decreases 32 - v,
        {
            let mut u: u32 = 0;
            while u < 32
                invariant
                    chunk.wf(),
                    *light_store == chunk.light_spec(),
                    light_store.wf(),
                    side < 6,
                    v < 32,
                    u <= 32,
                    emitted@.len() == 32 * v + u,
                    sky@.len() == 32 * v + u,
                    forall|idx: int|
                        0 <= idx < emitted@.len() ==> emitted@[idx]@ == light_store.emitted_at(
                            side_tile_position(side as int, idx).index(),
                        ) && sky@[idx].0 == light_store.sky_at(side_tile_position(side as int, idx).index())
                            && emitted@[idx]@ < 0x1000 && sky@[idx].0 < 16,
                decreases 32 - u,
            {
                let pos_in_chunk = side_position(side, u, v);
                proof {
                    let idx = 32 * v + u;
                    assert(idx % 32 == u && idx / 32 == v);
                }
                emitted.push(light_store.get_emitted_light(pos_in_chunk));
                sky.push(light_store.get_skylight(pos_in_chunk));
                u = u + 1;
            }
            v = v + 1;
        }
        ChunkSideLight { emitted, sky }
    }

    /// The light on the +x side of the chunk
    pub fn px(chunk: &Chunk) -> (r: Self)
        requires
            chunk.wf(),
        ensures
            r.wf(),
            forall|idx: int|
                0 <= idx < 1024 ==> r.emitted@[idx]@ == chunk.light_spec().emitted_at(
                    side_tile_position(0, idx).index(),
                ) && r.sky@[idx].0 == chunk.light_spec().sky_at(side_tile_position(0, idx).index()),
    {
        Self::of_side(chunk, 0)
    }

    /// The light on the +y side of the chunk
    pub fn py(chunk: &Chunk) -> (r: Self)
        requires
            chunk.wf(),
        ensures
            r.wf(),
            forall|idx: int|
                0 <= idx < 1024 ==> r.emitted@[idx]@ == chunk.light_spec().emitted_at(
                    side_tile_position(1, idx).index(),
                ) && r.sky@[idx].0 == chunk.light_spec().sky_at(side_tile_position(1, idx).index()),
    {
        Self::of_side(chunk, 1)
    }

    /// The light on the +z side of the chunk
    pub fn pz(chunk: &Chunk) -> (r: Self)
        requires
            chunk.wf(),
        ensures
            r.wf(),
            forall|idx: int|
                0 <= idx < 1024 ==> r.emitted@[idx]@ == chunk.light_spec().emitted_at(
                    side_tile_position(2, idx).index(),
                ) && r.sky@[idx].0 == chunk.light_spec().sky_at(side_tile_position(2, idx).index()),
    {
        Self::of_side(chunk, 2)
    }

    /// The light on the -x side of the chunk
    pub fn nx(chunk: &Chunk) -> (r: Self)
        requires
            chunk.wf(),
        ensures
            r.wf(),
            forall|idx: int|
                0 <= idx < 1024 ==> r.emitted@[idx]@ == chunk.light_spec().emitted_at(
                    side_tile_position(3, idx).index(),
                ) && r.sky@[idx].0 == chunk.light_spec().sky_at(side_tile_position(3, idx).index()),
    {
        Self::of_side(chunk, 3)
    }

    /// The light on the -y side of the chunk
    pub fn ny(chunk: &Chunk) -> (r: Self)
        requires
            chunk.wf(),
        ensures
            r.wf(),
            forall|idx: int|
                0 <= idx < 1024 ==> r.emitted@[idx]@ == chunk.light_spec().emitted_at(
                    side_tile_position(4, idx).index(),
                ) && r.sky@[idx].0 == chunk.light_spec().sky_at(side_tile_position(4, idx).index()),
    {
        Self::of_side(chunk, 4)
    }

    /// The light on the -z side of the chunk
    pub fn nz(chunk: &Chunk) -> (r: Self)
        requires
            chunk.wf(),
        ensures
            r.wf(),
            forall|idx: int|
                0 <= idx < 1024 ==> r.emitted@[idx]@ == chunk.light_spec().emitted_at(
                    side_tile_position(5, idx).index(),
                ) && r.sky@[idx].0 == chunk.light_spec().sky_at(side_tile_position(5, idx).index()),
    {
        Self::of_side(chunk, 5)
    }

    /// The light on the sides of the six chunks around a chunk that face it, in face
    /// order; `None` where the neighbour `neighbours[i]` across face `i` is not loaded.
    pub fn get_surrounding_sides(neighbours: &[Option<&Chunk>]) -> (r: Vec<Option<ChunkSideLight>>)
        requires
            neighbours@.len() == 6,
            forall|i: int| 0 <= i < 6 ==> ((#[trigger] neighbours@[i]) matches Some(c) ==> c.wf()),
        ensures
            r@.len() == 6,
            forall|i: int|
                0 <= i < 6 ==> ((#[trigger] r@[i]) is Some <==> neighbours@[i] is Some),
            forall|i: int| 0 <= i < 6 && (#[trigger] r@[i]) is Some ==> r@[i]->0.wf(),
            forall|i: int, idx: int|
                0 <= i < 6 && 0 <= idx < 1024 && r@[i] is Some ==> (#[trigger] r@[i]->0.emitted@[idx])@ == neighbours@[i]->0.light_spec().emitted_at(
                    side_tile_position((i + 3) % 6, idx).index(),
                ) && r@[i]->0.sky@[idx].0 == neighbours@[i]->0.light_spec().sky_at(
                    side_tile_position((i + 3) % 6, idx).index(),
                ),
    {
        let mut sides: Vec<Option<ChunkSideLight>> = Vec::new();
        let mut i: usize = 0;
        while i < 6
            invariant
                neighbours@.len() == 6,
                forall|i: int| 0 <= i < 6 ==> ((#[trigger] neighbours@[i]) matches Some(c) ==> c.wf()),
                i <= 6,
                sides@.len() == i,
                forall|j: int| 0 <= j < i ==> ((#[trigger] sides@[j]) is Some <==> neighbours@[j] is Some),
                forall|j: int| 0 <= j < i && (#[trigger] sides@[j]) is Some ==> sides@[j]->0.wf(),
                forall|j: int, idx: int|
                    0 <= j < i && 0 <= idx < 1024 && sides@[j] is Some ==> (#[trigger] sides@[j]->0.emitted@[idx])@ == neighbours@[j]->0.light_spec().emitted_at(
                        side_tile_position((j + 3) % 6, idx).index(),
                    ) && sides@[j]->0.sky@[idx].0 == neighbours@[j]->0.light_spec().sky_at(
                        side_tile_position((j + 3) % 6, idx).index(),
                    ),
            decreases 6 - i,
        {
            let side = match neighbours[i] {
                Some(chunk) => {
                    let opposite = FaceIndex(i).opposite().as_usize();
                    proof {
                        assert(opposite == (i + 3) % 6);
                    }
                    Some(Self::of_side(chunk, opposite))
                },
                None => None,
            };
            let ghost before = sides@;
            sides.push(side);
            proof {
                assert forall|j: int, idx: int|
                    0 <= j < i + 1 && 0 <= idx < 1024 && sides@[j] is Some implies (#[trigger] sides@[j]->0.emitted@[idx])@ == neighbours@[j]->0.light_spec().emitted_at(
                        side_tile_position((j + 3) % 6, idx).index(),
                    ) && sides@[j]->0.sky@[idx].0 == neighbours@[j]->0.light_spec().sky_at(
                        side_tile_position((j + 3) % 6, idx).index(),
                    ) by {
                    if j < i {
                        assert(sides@[j] == before[j]);
                    }
                }
                assert forall|j: int, idx: int|
                    0 <= j < i + 1 && 0 <= idx < 1024 && sides@[j] is Some implies sides@[j]->0.sky@[idx].0
                        == neighbours@[j]->0.light_spec().sky_at(side_tile_position((j + 3) % 6, idx).index()) by {
                    if j < i {
                        assert(sides@[j] == before[j]);
                        assert((before[j]->0.emitted@[idx])@ == neighbours@[j]->0.light_spec().emitted_at(
                            side_tile_position((j + 3) % 6, idx).index(),
                        ));
                    }
                }
            }
            i = i + 1;
        }
        sides
    }
}

} // verus!
