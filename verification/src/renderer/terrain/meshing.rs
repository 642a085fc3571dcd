//! Chunk meshes: the visible faces of a chunk, as quads with their texture and the
//! light at their four corners.
//!
//! A chunk is meshed one face direction at a time. For direction `dir`, the cells of
//! the chunk are addressed by layer coordinates `(u, v, w)`: `u` along the face's
//! first texture direction, `v` along its second, `w` the layer across the direction.
//! A face of a block is shown when the block has a face in `dir` and the cell it
//! looks into (the next layer along `dir`, or the neighbouring chunk's side) shows no
//! face back.

use crate::terrain::block::{block_is_opaque_spec, block_model_spec, get_block, BlockId};
use crate::terrain::block::model::BlockFace;
use crate::terrain::chunk::light_store::ChunkLightStore;
use crate::terrain::chunk::side::{ChunkSideFaces, ChunkSideLight};
use crate::terrain::lighting::emitted_light::{nibble, EmittedLight};
use crate::terrain::position_types::LocalBlockPosition;
use crate::util::face::{
    face_bitangent, face_bitangent_spec, face_normal, face_normal_spec, face_tangent,
    face_tangent_spec, FaceIndex,
};
use crate::util::vector::{IVec3, UVec3};
use vstd::prelude::*;

verus! {

/// Data about a chunk needed to generate its mesh
#[derive(Clone, Copy)]
pub struct ChunkMeshInput<'a> {
    /// Array of blocks in the chunk, ordered by z, then y, then x
    pub blocks: &'a [BlockId],
    /// Chunk light data
    pub light: &'a ChunkLightStore,
    /// Sides of the surrounding chunks
    pub surrounding_sides_faces: &'a [Option<ChunkSideFaces>],
    /// Light data on the sides of the surrounding chunks
    pub surrounding_sides_light: &'a [Option<ChunkSideLight>],
}

impl<'a> ChunkMeshInput<'a> {
    /// A whole chunk of registered blocks, consistent light data and one (possibly
    /// missing) side for each face.
    pub open spec fn wf(&self) -> bool {
        &&& self.blocks@.len() == 32768
        &&& forall|i: int| 0 <= i < 32768 ==> (#[trigger] self.blocks@[i]).0 < 5
        &&& self.light.wf()
        &&& self.surrounding_sides_faces@.len() == 6
        &&& forall|s: int|
            0 <= s < 6 ==> ((#[trigger] self.surrounding_sides_faces@[s]) matches Some(side)
                ==> side.wf())
        &&& self.surrounding_sides_light@.len() == 6
        &&& forall|s: int|
            0 <= s < 6 ==> ((#[trigger] self.surrounding_sides_light@[s]) matches Some(side)
                ==> side.wf())
    }

    /// The block at `p` has faces (it is a full block).
    pub open spec fn solid(&self, p: LocalBlockPosition) -> bool {
        block_is_opaque_spec(self.blocks@[p.index()].0 as int)
    }
}

/// The light summed over the four blocks around one corner of a face, per channel
/// (each between 0 and 60).
#[derive(Clone, Copy, Debug, PartialEq, Eq, Structural)]
pub struct CornerLight {
    pub r: u8,
    pub g: u8,
    pub b: u8,
}

/// The light at the four corners of a face.
#[derive(Clone, Copy, Debug, PartialEq, Eq, Structural)]
pub struct FaceLightData {
    pub c0: CornerLight,
    pub c1: CornerLight,
    pub c2: CornerLight,
    pub c3: CornerLight,
}

/// A rectangle of faces pointing in direction `face`, covering the cells `u..u + size_u`
/// by `v..v + size_v` of layer `layer`, with one texture and one set of corner light
/// values.
#[derive(Clone, Copy, Debug)]
pub struct MeshQuad {
    pub face: FaceIndex,
    pub u: u32,
    pub v: u32,
    pub layer: u32,
    pub size_u: u32,
    pub size_v: u32,
    pub texture_index: usize,
    pub light: FaceLightData,
    /// The quad is split into triangles along its other diagonal.
    pub flipped: bool,
}

/// Direction `dir` points towards negative coordinates.
pub open spec fn negative_spec(dir: int) -> bool {
    dir >= 3
}

/// The chunk position of the cell `(u, v, w)` in the layer coordinates of direction `dir`.
pub open spec fn layer_cell(dir: int, u: int, v: int, w: int) -> LocalBlockPosition {
    let (x, y, z) = if dir == 0 || dir == 3 {
        (w, v, u)
    } else if dir == 1 || dir == 4 {
        (v, w, u)
    } else {
        (u, v, w)
    };
    LocalBlockPosition(UVec3 { x: x as u32, y: y as u32, z: z as u32 })
}

/// The chunk position of the cell `(u, v, w)` in the layer coordinates of direction `dir`.
pub fn rotate(dir: usize, u: u32, v: u32, w: u32) -> (r: LocalBlockPosition)
    requires
        dir < 6,
        u < 32,
        v < 32,
        w < 32,
    ensures
        r == layer_cell(dir as int, u as int, v as int, w as int),
        r.is_valid(),
{
    if dir == 0 || dir == 3 {
        LocalBlockPosition::new(w, v, u)
    } else if dir == 1 || dir == 4 {
        LocalBlockPosition::new(v, w, u)
    } else {
        LocalBlockPosition::new(u, v, w)
    }
}

/// Index of a block position in the chunk's block array, ordered by z, then y, then x.
pub fn uvec3_to_chunk_index(pos: UVec3) -> (r: usize)
    requires
        pos.x < 32,
        pos.y < 32,
        pos.z < 32,
    ensures
        r == LocalBlockPosition(pos).index(),
        r < 32768,
{
    proof {
        crate::terrain::position_types::lemma_array_index_roundtrip(LocalBlockPosition(pos));
    }
    (1024 * pos.z + 32 * pos.y + pos.x) as usize
}

/// Whether the neighbouring chunk's side across `dir` leaves tile `idx` open; open
/// when there is no neighbouring chunk.
pub open spec fn side_open(input: ChunkMeshInput, dir: int, idx: int) -> bool {
    match input.surrounding_sides_faces@[dir] {
        Some(side) => side.faces@[idx],
        None => true,
    }
}

/// The cell `(u, v)` of layer `w` is visible from direction `dir`: the cell it looks
/// into shows no face back.
pub open spec fn visible_spec(input: ChunkMeshInput, dir: int, w: int, u: int, v: int) -> bool {
    let first: int = if negative_spec(dir) { 0 } else { 31 };
    if w == first {
        side_open(input, dir, 32 * v + u)
    } else {
        let prev = if negative_spec(dir) { w - 1 } else { w + 1 };
        !input.solid(layer_cell(dir, u, v, prev))
    }
}

/// The face pointing in `dir` of the cell `(u, v)` of layer `w` is drawn.
pub open spec fn shown(input: ChunkMeshInput, dir: int, w: int, u: int, v: int) -> bool {
    input.solid(layer_cell(dir, u, v, w)) && visible_spec(input, dir, w, u, v)
}

/// Texture of the face pointing in `dir` of the block at `p`.
pub open spec fn texture_spec(input: ChunkMeshInput, dir: int, p: LocalBlockPosition) -> usize {
    block_model_spec(input.blocks@[p.index()].0 as int).face_spec(dir)->0.texture_index
}

// ---------------------------------------------------------------------------------
// light sampling

/// The emitted light and opaqueness found at `pos + off`: inside the chunk, its
/// light and block; on a side of a neighbouring chunk, the light and solidity of that
/// side's tile; past a corner of the chunk, the light at `pos` itself.
#[verifier::opaque]
pub open spec fn sample_spec(input: ChunkMeshInput, pos: LocalBlockPosition, off: IVec3) -> (u16, bool) {
    let x = pos.0.x + off.x;
    let y = pos.0.y + off.y;
    let z = pos.0.z + off.z;
    if 0 <= x < 32 && 0 <= y < 32 && 0 <= z < 32 {
        let q = LocalBlockPosition(UVec3 { x: x as u32, y: y as u32, z: z as u32 });
        (input.light.emitted_at(q.index()), input.solid(q))
    } else {
        let chunk_offset = IVec3 { x: (x / 32) as i32, y: (y / 32) as i32, z: (z / 32) as i32 };
        if exists|s: int| 0 <= s < 6 && face_normal_spec(s) == chunk_offset {
            let s = choose|s: int| 0 <= s < 6 && face_normal_spec(s) == chunk_offset;
            let wrapped = IVec3 { x: (x % 32) as i32, y: (y % 32) as i32, z: (z % 32) as i32 };
            let u = axis_component(wrapped, face_tangent_spec(s));
            let v = axis_component(wrapped, face_bitangent_spec(s));
            let idx = u + 32 * v;
            let light = match input.surrounding_sides_light@[s] {
                Some(side) => side.emitted@[idx]@,
                None => 0,
            };
            let opaque = match input.surrounding_sides_faces@[s] {
                Some(side) => !side.faces@[idx],
                None => false,
            };
            (light, opaque)
        } else {
            (input.light.emitted_at(pos.index()), false)
        }
    }
}

/// The component of `p` along the axis of unit direction `d`.
pub open spec fn axis_component(p: IVec3, d: IVec3) -> int {
    if d.x != 0 {
        p.x as int
    } else if d.y != 0 {
        p.y as int
    } else {
        p.z as int
    }
}

fn abs_dot(p: IVec3, d: IVec3) -> (r: i32)
    requires
        0 <= p.x < 32,
        0 <= p.y < 32,
        0 <= p.z < 32,
        (d.x == 0 && d.y == 0 && (d.z == 1 || d.z == -1)) || (d.x == 0 && d.z == 0 && (d.y == 1
            || d.y == -1)) || (d.y == 0 && d.z == 0 && (d.x == 1 || d.x == -1)),
    ensures
        r == axis_component(p, d),
{
    // the direction has a single non-zero component, so |p . d| is the matching
    // component of p
    if d.x != 0 {
        p.x
    } else if d.y != 0 {
        p.y
    } else {
        p.z
    }
}

/// Sample the light value at the block offset by `block_offset` from `block_pos`, and
/// whether there is an opaque block at that position
fn sample_light_at(input: ChunkMeshInput, block_pos: LocalBlockPosition, block_offset: IVec3) -> (r:
    (EmittedLight, bool))
    requires
        input.wf(),
        block_pos.is_valid(),
        -1 <= block_offset.x <= 1,
        -1 <= block_offset.y <= 1,
        -1 <= block_offset.z <= 1,
    ensures
        (r.0@, r.1) == sample_spec(input, block_pos, block_offset),
        r.0@ < 0x1000,
{
    reveal(sample_spec);
    match block_pos.try_add(block_offset) {
        Some(offset_pos) => {
            proof {
                crate::terrain::position_types::lemma_array_index_roundtrip(offset_pos);
            }
            let block_id = input.blocks[offset_pos.get_array_index()];
            let opaque = get_block(block_id).model.is_opaque();
            (input.light.get_emitted_light(offset_pos), opaque)
        },
        None => {
            let base = block_pos.as_ivec3();
            let ox = base.x + block_offset.x;
            let oy = base.y + block_offset.y;
            let oz = base.z + block_offset.z;
            proof {
                crate::terrain::position_types::lemma_mask_shift_i32(ox);
                crate::terrain::position_types::lemma_mask_shift_i32(oy);
                crate::terrain::position_types::lemma_mask_shift_i32(oz);
            }
            let wrapped = IVec3 { x: ox & 31, y: oy & 31, z: oz & 31 };
            let chunk_offset = IVec3 { x: ox >> 5, y: oy >> 5, z: oz >> 5 };
            match FaceIndex::from_dir(chunk_offset) {
                Some(side_index) => {
                    let s = side_index.as_usize();
                    proof {
                        assert(face_normal_spec(s as int) == chunk_offset);
                        assert forall|t: int| 0 <= t < 6 && face_normal_spec(t) == chunk_offset implies t == s by {}
                    }
                    let u = abs_dot(wrapped, face_tangent(s));
                    let v = abs_dot(wrapped, face_bitangent(s));
                    let index_in_side = (u as usize) + (v as usize) * 32;
                    let opaque = match &input.surrounding_sides_faces[s] {
                        Some(side) => !side.faces[index_in_side],
                        None => false,
                    };
                    let light = match &input.surrounding_sides_light[s] {
                        Some(side) => side.emitted[index_in_side],
                        None => EmittedLight::zero(),
                    };
                    (light, opaque)
                },
                None => {
                    // No information for chunk corner so use center block
                    proof {
                        crate::terrain::position_types::lemma_array_index_roundtrip(block_pos);
                    }
                    (input.light.get_emitted_light(block_pos), false)
                },
            }
        },
    }
}

// ---------------------------------------------------------------------------------
// light interpolation

/// Offset from a block to sample `(a, b)` of the 3x3 neighbourhood in front of its
/// face `dir`: one step along the normal, `a - 1` along the tangent and `b - 1` along
/// the bitangent.
pub open spec fn sample_offset_spec(dir: int, a: int, b: int) -> IVec3 {
    let n = face_normal_spec(dir);
    let t = face_tangent_spec(dir);
    let bt = face_bitangent_spec(dir);
    IVec3 {
        x: (n.x + (a - 1) * t.x + (b - 1) * bt.x) as i32,
        y: (n.y + (a - 1) * t.y + (b - 1) * bt.y) as i32,
        z: (n.z + (a - 1) * t.z + (b - 1) * bt.z) as i32,
    }
}

/// Sample `(a, b)` of the neighbourhood in front of face `dir` of the block at `pos`.
pub open spec fn sample_at(input: ChunkMeshInput, dir: int, pos: LocalBlockPosition, a: int, b: int) -> (
    u16,
    bool,
) {
    sample_spec(input, pos, sample_offset_spec(dir, a, b))
}

/// Corner sample `(a, b)` is hidden behind the two opaque samples next to it, so its
/// light cannot leak around them.
pub open spec fn corner_hidden(input: ChunkMeshInput, dir: int, pos: LocalBlockPosition, a: int, b: int) -> bool {
    let o0 = sample_at(input, dir, pos, 0, 1).1;
    let o1 = sample_at(input, dir, pos, 1, 0).1;
    let o2 = sample_at(input, dir, pos, 1, 2).1;
    let o3 = sample_at(input, dir, pos, 2, 1).1;
    ||| a == 0 && b == 0 && o0 && o1
    ||| a == 0 && b == 2 && o0 && o2
    ||| a == 2 && b == 0 && o1 && o3
    ||| a == 2 && b == 2 && o2 && o3
}

/// Channel `c` of the light of sample `(a, b)`, zero where the corner is hidden.
pub open spec fn sample_channel(input: ChunkMeshInput, dir: int, pos: LocalBlockPosition, a: int, b: int, c: int) -> int {
    if corner_hidden(input, dir, pos, a, b) {
        0
    } else {
        nibble(sample_at(input, dir, pos, a, b).0, c) as int
    }
}

/// Channel `c` summed over the samples `(a0..a0 + 2, b0..b0 + 2)`.
pub open spec fn corner_channel(input: ChunkMeshInput, dir: int, pos: LocalBlockPosition, a0: int, b0: int, c: int) -> int {
    sample_channel(input, dir, pos, a0, b0, c) + sample_channel(input, dir, pos, a0, b0 + 1, c)
        + sample_channel(input, dir, pos, a0 + 1, b0, c) + sample_channel(input, dir, pos, a0 + 1, b0 + 1, c)
}

/// The light summed around the corner whose samples start at `(a0, b0)`.
pub open spec fn corner_spec(input: ChunkMeshInput, dir: int, pos: LocalBlockPosition, a0: int, b0: int) -> CornerLight {
    CornerLight {
        r: corner_channel(input, dir, pos, a0, b0, 0) as u8,
        g: corner_channel(input, dir, pos, a0, b0, 1) as u8,
        b: corner_channel(input, dir, pos, a0, b0, 2) as u8,
    }
}

/// The light at the four corners of face `dir` of the block at `pos`.
#[verifier::opaque]
pub open spec fn face_light_spec(input: ChunkMeshInput, dir: int, pos: LocalBlockPosition) -> FaceLightData {
    FaceLightData {
        c0: corner_spec(input, dir, pos, 0, 0),
        c1: corner_spec(input, dir, pos, 0, 1),
        c2: corner_spec(input, dir, pos, 1, 0),
        c3: corner_spec(input, dir, pos, 1, 1),
    }
}

fn sample_offset(dir: usize, a: i32, b: i32) -> (r: IVec3)
    requires
        dir < 6,
        0 <= a < 3,
        0 <= b < 3,
    ensures
        r == sample_offset_spec(dir as int, a as int, b as int),
        -1 <= r.x <= 1,
        -1 <= r.y <= 1,
        -1 <= r.z <= 1,
{
    let n = face_normal(dir);
    let t = face_tangent(dir);
    let bt = face_bitangent(dir);
    proof {
        if dir == 0 {
        } else if dir == 1 {
        } else if dir == 2 {
        } else if dir == 3 {
        } else if dir == 4 {
        } else {
        }
        assert(-1 <= t.x <= 1 && -1 <= t.y <= 1 && -1 <= t.z <= 1);
        assert(-1 <= bt.x <= 1 && -1 <= bt.y <= 1 && -1 <= bt.z <= 1);
    }
    IVec3 {
        x: n.x + (a - 1) * t.x + (b - 1) * bt.x,
        y: n.y + (a - 1) * t.y + (b - 1) * bt.y,
        z: n.z + (a - 1) * t.z + (b - 1) * bt.z,
    }
}

fn sample(input: ChunkMeshInput, dir: usize, pos: LocalBlockPosition, a: i32, b: i32) -> (r: (
    EmittedLight,
    bool,
))
    requires
        input.wf(),
        dir < 6,
        pos.is_valid(),
        0 <= a < 3,
        0 <= b < 3,
    ensures
        (r.0@, r.1) == sample_at(input, dir as int, pos, a as int, b as int),
        r.0@ < 0x1000,
{
    sample_light_at(input, pos, sample_offset(dir, a, b))
}

/// Sum of one corner's four samples, with hidden corner samples counted as zero.
fn corner_sum(l0: EmittedLight, l1: EmittedLight, l2: EmittedLight, l3: EmittedLight) -> (r: CornerLight)
    ensures
        r.r == nibble(l0@, 0) + nibble(l1@, 0) + nibble(l2@, 0) + nibble(l3@, 0),
        r.g == nibble(l0@, 1) + nibble(l1@, 1) + nibble(l2@, 1) + nibble(l3@, 1),
        r.b == nibble(l0@, 2) + nibble(l1@, 2) + nibble(l2@, 2) + nibble(l3@, 2),
{
    let c0 = l0.as_rgb();
    let c1 = l1.as_rgb();
    let c2 = l2.as_rgb();
    let c3 = l3.as_rgb();
    CornerLight {
        r: (c0.0 + c1.0 + c2.0 + c3.0) as u8,
        g: (c0.1 + c1.1 + c2.1 + c3.1) as u8,
        b: (c0.2 + c1.2 + c2.2 + c3.2) as u8,
    }
}

/// Interpolate the light values for each vertex of the face pointing in `dir` of the
/// block at `block_pos`
#[verifier::spinoff_prover]
#[verifier::rlimit(40)]
pub fn interpolate_light_for_face(input: ChunkMeshInput, dir: FaceIndex, block_pos: LocalBlockPosition) -> (r:
    FaceLightData)
    requires
        input.wf(),
        dir.is_valid(),
        block_pos.is_valid(),
    ensures
        r == face_light_spec(input, dir.0 as int, block_pos),
{
    let d = dir.as_usize();
    // read the 3x3 neighbourhood of blocks in front of the face
    let (s00, _) = sample(input, d, block_pos, 0, 0);
    let (s01, o0) = sample(input, d, block_pos, 0, 1);
    let (s02, _) = sample(input, d, block_pos, 0, 2);
    let (s10, o1) = sample(input, d, block_pos, 1, 0);
    let (s11, _) = sample(input, d, block_pos, 1, 1);
    let (s12, o2) = sample(input, d, block_pos, 1, 2);
    let (s20, _) = sample(input, d, block_pos, 2, 0);
    let (s21, o3) = sample(input, d, block_pos, 2, 1);
    let (s22, _) = sample(input, d, block_pos, 2, 2);

    // prevent light leaking from corner blocks cases like
    // L O
    // O C
    // (L: light, O: opaque, C: center)
    let s00 = if o0 && o1 { EmittedLight::zero() } else { s00 };
    let s02 = if o0 && o2 { EmittedLight::zero() } else { s02 };
    let s20 = if o1 && o3 { EmittedLight::zero() } else { s20 };
    let s22 = if o2 && o3 { EmittedLight::zero() } else { s22 };
    proof {
        reveal(face_light_spec);
        let di = d as int;
        crate::terrain::lighting::emitted_light::lemma_channels(0u16, 0u16);
        crate::terrain::lighting::emitted_light::lemma_channels(s00@, 0u16);
        crate::terrain::lighting::emitted_light::lemma_channels(s01@, 0u16);
        crate::terrain::lighting::emitted_light::lemma_channels(s02@, 0u16);
        crate::terrain::lighting::emitted_light::lemma_channels(s10@, 0u16);
        crate::terrain::lighting::emitted_light::lemma_channels(s11@, 0u16);
        crate::terrain::lighting::emitted_light::lemma_channels(s12@, 0u16);
        crate::terrain::lighting::emitted_light::lemma_channels(s20@, 0u16);
        crate::terrain::lighting::emitted_light::lemma_channels(s21@, 0u16);
        crate::terrain::lighting::emitted_light::lemma_channels(s22@, 0u16);
        assert forall|c: int| 0 <= c < 3 implies {
            &&& sample_channel(input, di, block_pos, 0, 0, c) == nibble(s00@, c) as int
            &&& sample_channel(input, di, block_pos, 0, 1, c) == nibble(s01@, c) as int
            &&& sample_channel(input, di, block_pos, 0, 2, c) == nibble(s02@, c) as int
            &&& sample_channel(input, di, block_pos, 1, 0, c) == nibble(s10@, c) as int
            &&& sample_channel(input, di, block_pos, 1, 1, c) == nibble(s11@, c) as int
            &&& sample_channel(input, di, block_pos, 1, 2, c) == nibble(s12@, c) as int
            &&& sample_channel(input, di, block_pos, 2, 0, c) == nibble(s20@, c) as int
            &&& sample_channel(input, di, block_pos, 2, 1, c) == nibble(s21@, c) as int
            &&& sample_channel(input, di, block_pos, 2, 2, c) == nibble(s22@, c) as int
        } by {
            assert(crate::terrain::lighting::emitted_light::ch(0u16, c) == 0);
        }
        assert forall|a0: int, b0: int, c: int| 0 <= a0 < 2 && 0 <= b0 < 2 && 0 <= c < 3 implies 0
            <= #[trigger] corner_channel(input, di, block_pos, a0, b0, c) < 64 by {
            assert(crate::terrain::lighting::emitted_light::ch(s00@, c) < 16);
            assert(crate::terrain::lighting::emitted_light::ch(s01@, c) < 16);
            assert(crate::terrain::lighting::emitted_light::ch(s02@, c) < 16);
            assert(crate::terrain::lighting::emitted_light::ch(s10@, c) < 16);
            assert(crate::terrain::lighting::emitted_light::ch(s11@, c) < 16);
            assert(crate::terrain::lighting::emitted_light::ch(s12@, c) < 16);
            assert(crate::terrain::lighting::emitted_light::ch(s20@, c) < 16);
            assert(crate::terrain::lighting::emitted_light::ch(s21@, c) < 16);
            assert(crate::terrain::lighting::emitted_light::ch(s22@, c) < 16);
        }
    }
    FaceLightData {
        c0: corner_sum(s00, s01, s10, s11),
        c1: corner_sum(s01, s02, s11, s12),
        c2: corner_sum(s10, s11, s20, s21),
        c3: corner_sum(s11, s12, s21, s22),
    }
}

/// Channel `c` of the light read at sample `(a, b)` in front of face `dir` of `pos`.
pub open spec fn sample_light(input: ChunkMeshInput, dir: int, pos: LocalBlockPosition, a: int, b: int, c: int) -> int {
    nibble(sample_at(input, dir, pos, a, b).0, c) as int
}

/// Sample `(a, b)` in front of face `dir` of `pos` is opaque.
pub open spec fn sample_opaque(input: ChunkMeshInput, dir: int, pos: LocalBlockPosition, a: int, b: int) -> bool {
    sample_at(input, dir, pos, a, b).1
}

/// Channel `c` of the light summed over the samples `(a0, b0)`, `(a1, b1)` and `(a2, b2)`.
pub open spec fn three_samples(
    input: ChunkMeshInput,
    dir: int,
    pos: LocalBlockPosition,
    a0: int,
    b0: int,
    a1: int,
    b1: int,
    a2: int,
    b2: int,
    c: int,
) -> int {
    sample_light(input, dir, pos, a0, b0, c) + sample_light(input, dir, pos, a1, b1, c) + sample_light(
        input,
        dir,
        pos,
        a2,
        b2,
        c,
    )
}

/// Channel `c` of the light summed over all four samples of the corner starting at
/// `(a0, b0)`.
pub open spec fn four_samples(input: ChunkMeshInput, dir: int, pos: LocalBlockPosition, a0: int, b0: int, c: int) -> int {
    sample_light(input, dir, pos, a0, b0, c) + sample_light(input, dir, pos, a0, b0 + 1, c) + sample_light(
        input,
        dir,
        pos,
        a0 + 1,
        b0,
        c,
    ) + sample_light(input, dir, pos, a0 + 1, b0 + 1, c)
}

/// Channel `c` of the light of a face corner: red, green or blue.
pub open spec fn corner_channel_of(l: CornerLight, c: int) -> int {
    if c == 0 {
        l.r as int
    } else if c == 1 {
        l.g as int
    } else {
        l.b as int
    }
}

/// Light does not leak around two opaque blocks: where both samples beside a diagonal
/// sample of a corner are opaque, that diagonal sample adds nothing, and the corner's
/// light is the sum of its three other samples alone; otherwise the corner's light is
/// the sum of all four of its samples.
pub proof fn lemma_hidden_corner_adds_no_light(input: ChunkMeshInput, dir: int, pos: LocalBlockPosition)
    requires
        0 <= dir < 6,
        pos.is_valid(),
    ensures
        forall|c: int|
            0 <= c < 3 && sample_opaque(input, dir, pos, 0, 1) && sample_opaque(input, dir, pos, 1, 0) ==> #[trigger] corner_channel_of(
                face_light_spec(input, dir, pos).c0,
                c,
            ) == three_samples(input, dir, pos, 0, 1, 1, 0, 1, 1, c),
        forall|c: int|
            0 <= c < 3 && sample_opaque(input, dir, pos, 0, 1) && sample_opaque(input, dir, pos, 1, 2) ==> #[trigger] corner_channel_of(
                face_light_spec(input, dir, pos).c1,
                c,
            ) == three_samples(input, dir, pos, 0, 1, 1, 1, 1, 2, c),
        forall|c: int|
            0 <= c < 3 && sample_opaque(input, dir, pos, 1, 0) && sample_opaque(input, dir, pos, 2, 1) ==> #[trigger] corner_channel_of(
                face_light_spec(input, dir, pos).c2,
                c,
            ) == three_samples(input, dir, pos, 1, 0, 1, 1, 2, 1, c),
        forall|c: int|
            0 <= c < 3 && sample_opaque(input, dir, pos, 1, 2) && sample_opaque(input, dir, pos, 2, 1) ==> #[trigger] corner_channel_of(
                face_light_spec(input, dir, pos).c3,
                c,
            ) == three_samples(input, dir, pos, 1, 1, 1, 2, 2, 1, c),
        forall|c: int|
            0 <= c < 3 && !(sample_opaque(input, dir, pos, 0, 1) && sample_opaque(input, dir, pos, 1, 0)) ==> #[trigger] corner_channel_of(
                face_light_spec(input, dir, pos).c0,
                c,
            ) == four_samples(input, dir, pos, 0, 0, c),
        forall|c: int|
            0 <= c < 3 && !(sample_opaque(input, dir, pos, 0, 1) && sample_opaque(input, dir, pos, 1, 2)) ==> #[trigger] corner_channel_of(
                face_light_spec(input, dir, pos).c1,
                c,
            ) == four_samples(input, dir, pos, 0, 1, c),
        forall|c: int|
            0 <= c < 3 && !(sample_opaque(input, dir, pos, 1, 0) && sample_opaque(input, dir, pos, 2, 1)) ==> #[trigger] corner_channel_of(
                face_light_spec(input, dir, pos).c2,
                c,
            ) == four_samples(input, dir, pos, 1, 0, c),
        forall|c: int|
            0 <= c < 3 && !(sample_opaque(input, dir, pos, 1, 2) && sample_opaque(input, dir, pos, 2, 1)) ==> #[trigger] corner_channel_of(
                face_light_spec(input, dir, pos).c3,
                c,
            ) == four_samples(input, dir, pos, 1, 1, c),
{
    reveal(face_light_spec);
    assert forall|a: int, b: int, c: int| 0 <= a < 3 && 0 <= b < 3 && 0 <= c < 3 implies 0 <= #[trigger] sample_light(
        input,
        dir,
        pos,
        a,
        b,
        c,
    ) < 16 by {
        crate::terrain::lighting::emitted_light::lemma_channels(sample_at(input, dir, pos, a, b).0, 0u16);
        assert(crate::terrain::lighting::emitted_light::ch(sample_at(input, dir, pos, a, b).0, c) < 16);
    }
    assert forall|a: int, b: int, c: int| 0 <= a < 3 && 0 <= b < 3 && 0 <= c < 3 implies 0 <= #[trigger] sample_channel(
        input,
        dir,
        pos,
        a,
        b,
        c,
    ) < 16 by {
        assert(0 <= sample_light(input, dir, pos, a, b, c) < 16);
    }
}

/// Brightness of a corner as the quad split compares it: red, green and twice blue.
pub open spec fn corner_weight(c: CornerLight) -> int {
    c.r + c.g + c.b + c.b
}

/// Whether the quad is split along its other diagonal: when the corners on the
/// first diagonal are no brighter than those on the second.
pub open spec fn flip_spec(light: FaceLightData) -> bool {
    corner_weight(light.c0) + corner_weight(light.c3) <= corner_weight(light.c1) + corner_weight(light.c2)
}

/// Decide whether to generate a flipped quad based on the light data, in order to improve the
/// anisotropy artifact caused by the division of the quad into two triangles
pub fn should_flip_quad(light_data: &FaceLightData) -> (r: bool)
    ensures
        r == flip_spec(*light_data),
{
    let a = light_data.c0.r as u32 + light_data.c0.g as u32 + light_data.c0.b as u32 + light_data.c0.b as u32;
    let b = light_data.c1.r as u32 + light_data.c1.g as u32 + light_data.c1.b as u32 + light_data.c1.b as u32;
    let c = light_data.c2.r as u32 + light_data.c2.g as u32 + light_data.c2.b as u32 + light_data.c2.b as u32;
    let d = light_data.c3.r as u32 + light_data.c3.g as u32 + light_data.c3.b as u32 + light_data.c3.b as u32;
    a + d <= b + c
}

/// Add a single axis-aligned face to the mesh
fn add_face(
    quads: &mut Vec<MeshQuad>,
    dir: FaceIndex,
    u: u32,
    v: u32,
    layer: u32,
    size_u: u32,
    size_v: u32,
    texture_index: usize,
    light_data: FaceLightData,
)
    ensures
        final(quads)@ == old(quads)@.push(
            MeshQuad {
                face: dir,
                u,
                v,
                layer,
                size_u,
                size_v,
                texture_index,
                light: light_data,
                flipped: flip_spec(light_data),
            },
        ),
{
    // improve the anisotropy in how the lighting is interpolated along the quad when divided into
    // two triangles by flipping the orientation of the triangles based on the brightness of the
    // light at each vertex.
    let flipped = should_flip_quad(&light_data);
    quads.push(
        MeshQuad { face: dir, u, v, layer, size_u, size_v, texture_index, light: light_data, flipped },
    );
}

/// The index pattern of one quad: two triangles sharing the diagonal 0-2.
pub open spec fn quad_index_pattern(k: int) -> u32 {
    if k == 0 {
        0
    } else if k == 1 {
        1
    } else if k == 2 {
        2
    } else if k == 3 {
        2
    } else if k == 4 {
        3
    } else {
        0
    }
}

/// Generate indices for the meshes returned by `mesh_culled` and `mesh_greedy`: six
/// indices, `0, 1, 2, 2, 3, 0` offset by the quad's first vertex, for each whole quad
/// of four vertices
pub fn generate_indices(vertex_count: usize) -> (r: Vec<u32>)
    requires
        // the index count fits, and so does the last quad's last index
        vertex_count / 2 * 3 <= usize::MAX,
        vertex_count / 4 * 4 <= u32::MAX + 1,
    ensures
        r@.len() == vertex_count / 2 * 3 / 6 * 6,
        forall|i: int, k: int|
            0 <= i < r@.len() / 6 && 0 <= k < 6 ==> #[trigger] r@[6 * i + k] == quad_index_pattern(k) + 4 * i,
{
    let index_count = vertex_count / 2 * 3;
    let quad_count = index_count / 6;
    assert(quad_count == vertex_count / 4);
    let mut indices: Vec<u32> = Vec::new();
    let mut i: usize = 0;
    while i < quad_count
        invariant
            quad_count == vertex_count / 2 * 3 / 6,
            quad_count <= 0x4000_0000,
            6 * quad_count <= usize::MAX,
            i <= quad_count,
            indices@.len() == 6 * i,
            forall|j: int, k: int|
                0 <= j < i && 0 <= k < 6 ==> #[trigger] indices@[6 * j + k] == quad_index_pattern(k) + 4 * j,
        decreases quad_count - i,
    {
        let first_index = (i * 4) as u32;
        let ghost before = indices@;
        indices.push(first_index);
        indices.push(1 + first_index);
        indices.push(2 + first_index);
        indices.push(2 + first_index);
        indices.push(3 + first_index);
        indices.push(first_index);
        proof {
            assert forall|j: int, k: int|
                0 <= j < i + 1 && 0 <= k < 6 implies #[trigger] indices@[6 * j + k] == quad_index_pattern(k)
                + 4 * j by {
                if j < i {
                    assert(indices@[6 * j + k] == before[6 * j + k]);
                }
            }
        }
        i = i + 1;
    }
    indices
}

/// The order in which a quad's corners become its four vertices: moved forward by one
/// when the quad is flipped.
pub fn vertex_order(flipped: bool, i: usize) -> (r: usize)
    requires
        i < 4,
    ensures
        r == if flipped { (i + 1) % 4 } else { i as int },
{
    if flipped {
        (i + 1) % 4
    } else {
        i
    }
}

/// The table of [`light_index`] for faces pointing in direction `dir`.
pub open spec fn light_indices_spec(dir: int) -> Seq<usize> {
    if dir == 0 || dir == 4 {
        seq![2, 0, 1, 3]
    } else if dir == 1 || dir == 2 {
        seq![0, 2, 3, 1]
    } else if dir == 3 {
        seq![3, 1, 0, 2]
    } else {
        seq![1, 3, 2, 0]
    }
}

/// Which of the interpolated light values corresponds to each corner of a face
/// pointing in `dir`.
pub fn light_index(dir: FaceIndex, corner: usize) -> (r: usize)
    requires
        dir.is_valid(),
        corner < 4,
    ensures
        r == light_indices_spec(dir.0 as int)[corner as int],
        r < 4,
{
    let table: [usize; 4] = if dir.0 == 0 || dir.0 == 4 {
        [2, 0, 1, 3]
    } else if dir.0 == 1 || dir.0 == 2 {
        [0, 2, 3, 1]
    } else if dir.0 == 3 {
        [3, 1, 0, 2]
    } else {
        [1, 3, 2, 0]
    };
    assert(table@ == light_indices_spec(dir.0 as int));
    table[corner]
}

// ---------------------------------------------------------------------------------
// what a mesh is

/// Quad `q` covers the cell `(u, v)` of layer `w`.
pub open spec fn covers(q: MeshQuad, w: int, u: int, v: int) -> bool {
    q.layer == w && q.u <= u < q.u + q.size_u && q.v <= v < q.v + q.size_v
}

/// `q` is a correct quad for direction `dir`: it lies in the chunk, every face it
/// covers is drawn, and all of them have its texture and its corner light.
pub open spec fn quad_ok(input: ChunkMeshInput, dir: int, q: MeshQuad) -> bool {
    &&& q.face.0 == dir
    &&& q.layer < 32
    &&& 1 <= q.size_u
    &&& 1 <= q.size_v
    &&& q.u + q.size_u <= 32
    &&& q.v + q.size_v <= 32
    &&& forall|u: int, v: int|
        #![trigger layer_cell(dir, u, v, q.layer as int)]
        covers(q, q.layer as int, u, v) ==> shown(input, dir, q.layer as int, u, v) && texture_spec(
            input,
            dir,
            layer_cell(dir, u, v, q.layer as int),
        ) == q.texture_index && face_light_spec(input, dir, layer_cell(dir, u, v, q.layer as int))
            == q.light
    &&& q.flipped == flip_spec(q.light)
}

/// `quads` draw exactly the shown faces pointing in `dir`, each once.
pub open spec fn is_mesh_of(input: ChunkMeshInput, dir: int, quads: Seq<MeshQuad>) -> bool {
    &&& forall|k: int| 0 <= k < quads.len() ==> quad_ok(input, dir, #[trigger] quads[k])
    &&& forall|w: int, u: int, v: int|
        0 <= w < 32 && 0 <= u < 32 && 0 <= v < 32 && #[trigger] shown(input, dir, w, u, v) ==> exists|k: int|
            0 <= k < quads.len() && #[trigger] covers(quads[k], w, u, v)
    &&& forall|k1: int, k2: int, w: int, u: int, v: int|
        0 <= k1 < k2 < quads.len() && #[trigger] covers(quads[k1], w, u, v) ==> !#[trigger] covers(
            quads[k2],
            w,
            u,
            v,
        )
}

/// Position of the cell `(u, v)` of layer `w` in the order the culled mesher visits
/// cells: by `u`, then `v`, then layers from the outside of the chunk inwards.
pub open spec fn culled_key(dir: int, w: int, u: int, v: int) -> int {
    1024 * u + 32 * v + if negative_spec(dir) { w } else { 31 - w }
}

/// The order the culled mesher makes quads in: by direction, then as [`culled_key`].
pub open spec fn culled_order(q: MeshQuad) -> int {
    32768 * q.face.0 + quad_key(q.face.0 as int, q)
}

/// The culled mesher's position of a quad.
pub open spec fn quad_key(dir: int, q: MeshQuad) -> int {
    culled_key(dir, q.layer as int, q.u as int, q.v as int)
}

/// Adds the face pointing in `dir` of the cell `(u, v)` of layer `layer` as a quad of
/// its own if it is drawn, given whether the cell is `visible`; returns whether the
/// next layer's cell is visible through this one.
fn add_cell_face(
    vertices: &mut Vec<MeshQuad>,
    input: ChunkMeshInput,
    dir: FaceIndex,
    u: u32,
    v: u32,
    layer: u32,
    visible: bool,
) -> (next_visible: bool)
    requires
        input.wf(),
        dir.is_valid(),
        u < 32,
        v < 32,
        layer < 32,
        visible == visible_spec(input, dir.0 as int, layer as int, u as int, v as int),
    ensures
        next_visible == !input.solid(layer_cell(dir.0 as int, u as int, v as int, layer as int)),
        shown(input, dir.0 as int, layer as int, u as int, v as int) ==> final(vertices)@.len() == old(vertices)@.len() + 1 && final(vertices)@.subrange(0, old(vertices)@.len() as int) == old(vertices)@ && ({
            let q = final(vertices)@[old(vertices)@.len() as int];
            &&& quad_ok(input, dir.0 as int, q)
            &&& q.u == u && q.v == v && q.layer == layer && q.size_u == 1 && q.size_v == 1
        }),
        !shown(input, dir.0 as int, layer as int, u as int, v as int) ==> final(vertices)@ == old(vertices)@,
{
    let ghost d = dir.0 as int;
    let pos_in_chunk = rotate(dir.as_usize(), u, v, layer);
    let block_id = input.blocks[uvec3_to_chunk_index(pos_in_chunk.0)];
    let block_model = get_block(block_id).model;
    match block_model.face(dir) {
        Some(face) => {
            if visible {
                let light_data = interpolate_light_for_face(input, dir, pos_in_chunk);
                add_face(vertices, dir, u, v, layer, 1, 1, face.texture_index, light_data);
                proof {
                    let q = vertices@[old(vertices)@.len() as int];
                    assert forall|uu: int, vv: int| covers(q, q.layer as int, uu, vv) implies uu == u && vv
                        == v by {}
                    assert(vertices@.subrange(0, old(vertices)@.len() as int) =~= old(vertices)@);
                }
            }
        },
        None => {},
    }
    block_model.face(dir.opposite()).is_none()
}

/// Add all visible faces for the given face direction, one quad per face
#[verifier::spinoff_prover]
fn add_visible_faces(vertices: &mut Vec<MeshQuad>, input: ChunkMeshInput, dir: FaceIndex)
    requires
        input.wf(),
        dir.is_valid(),
    ensures
        final(vertices)@.len() >= old(vertices)@.len(),
        final(vertices)@.subrange(0, old(vertices)@.len() as int) == old(vertices)@,
        is_mesh_of(input, dir.0 as int, final(vertices)@.subrange(old(vertices)@.len() as int, final(vertices)@.len() as int)),
        forall|k: int| old(vertices)@.len() <= k < final(vertices)@.len() ==> (#[trigger] final(vertices)@[k]).size_u == 1 && final(vertices)@[k].size_v == 1,
        forall|k1: int, k2: int|
            old(vertices)@.len() <= k1 < k2 < final(vertices)@.len() ==> #[trigger] quad_key(dir.0 as int, final(vertices)@[k1])
                < #[trigger] quad_key(dir.0 as int, final(vertices)@[k2]),
{
    let ghost start = vertices@.len() as int;
    let ghost d = dir.0 as int;
    let ghost old_v = vertices@;
    let dir_index = dir.as_usize();
    let negative = dir_index >= 3;
    let mut pos_parallel_x: u32 = 0;
    while pos_parallel_x < 32
        invariant
            input.wf(),
            dir.is_valid(),
            d == dir.0,
            dir_index == dir.0,
            negative == negative_spec(d),
            pos_parallel_x <= 32,
            vertices@.len() >= start,
            vertices@.subrange(0, start) == old_v,
            start == old_v.len(),
            forall|k: int|
                start <= k < vertices@.len() ==> quad_ok(input, d, #[trigger] vertices@[k]) && vertices@[k].size_u == 1
                    && vertices@[k].size_v == 1 && quad_key(d, vertices@[k]) < 1024 * pos_parallel_x,
            forall|k1: int, k2: int|
                start <= k1 < k2 < vertices@.len() ==> #[trigger] quad_key(d, vertices@[k1]) < #[trigger] quad_key(d, vertices@[k2]),
            forall|w: int, u: int, v: int|
                0 <= w < 32 && 0 <= u < pos_parallel_x && 0 <= v < 32 && #[trigger] shown(input, d, w, u, v) ==> exists|k: int|
                    start <= k < vertices@.len() && #[trigger] covers(vertices@[k], w, u, v),
        decreases 32 - pos_parallel_x,
    {
        let mut pos_parallel_y: u32 = 0;
        while pos_parallel_y < 32
            invariant
                input.wf(),
                dir.is_valid(),
                d == dir.0,
                dir_index == dir.0,
                negative == negative_spec(d),
                pos_parallel_x < 32,
                pos_parallel_y <= 32,
                vertices@.len() >= start,
                vertices@.subrange(0, start) == old_v,
                start == old_v.len(),
                forall|k: int|
                    start <= k < vertices@.len() ==> quad_ok(input, d, #[trigger] vertices@[k]) && vertices@[k].size_u == 1
                        && vertices@[k].size_v == 1 && quad_key(d, vertices@[k]) < 1024 * pos_parallel_x + 32 * pos_parallel_y,
                forall|k1: int, k2: int|
                    start <= k1 < k2 < vertices@.len() ==> #[trigger] quad_key(d, vertices@[k1]) < #[trigger] quad_key(d, vertices@[k2]),
                forall|w: int, u: int, v: int|
                    0 <= w < 32 && 0 <= u < 32 && 0 <= v < 32 && (u < pos_parallel_x || (u == pos_parallel_x && v < pos_parallel_y)) && #[trigger] shown(input, d, w, u, v) ==> exists|k: int|
                        start <= k < vertices@.len() && #[trigger] covers(vertices@[k], w, u, v),
            decreases 32 - pos_parallel_y,
        {
            let index_in_layer = (32 * pos_parallel_y + pos_parallel_x) as usize;
            let mut visible = match &input.surrounding_sides_faces[dir_index] {
                Some(side) => side.faces[index_in_layer],
                None => true,
            };
            let mut pos_perpendicular: u32 = 0;
            while pos_perpendicular < 32
                invariant
                    input.wf(),
                    dir.is_valid(),
                    d == dir.0,
                    dir_index == dir.0,
                    negative == negative_spec(d),
                    pos_parallel_x < 32,
                    pos_parallel_y < 32,
                    pos_perpendicular <= 32,
                    pos_perpendicular < 32 ==> visible == visible_spec(
                        input,
                        d,
                        if negative { pos_perpendicular as int } else { 31 - pos_perpendicular },
                        pos_parallel_x as int,
                        pos_parallel_y as int,
                    ),
                    vertices@.len() >= start,
                    vertices@.subrange(0, start) == old_v,
                    start == old_v.len(),
                    forall|k: int|
                        start <= k < vertices@.len() ==> quad_ok(input, d, #[trigger] vertices@[k]) && vertices@[k].size_u == 1
                            && vertices@[k].size_v == 1 && quad_key(d, vertices@[k])
                            < 1024 * pos_parallel_x + 32 * pos_parallel_y + pos_perpendicular,
                    forall|k1: int, k2: int|
                        start <= k1 < k2 < vertices@.len() ==> #[trigger] quad_key(d, vertices@[k1]) < #[trigger] quad_key(d, vertices@[k2]),
                    forall|w: int, u: int, v: int|
                        0 <= w < 32 && 0 <= u < 32 && 0 <= v < 32 && culled_key(d, w, u, v) < 1024
                            * pos_parallel_x + 32 * pos_parallel_y + pos_perpendicular && #[trigger] shown(input, d, w, u, v) ==> exists|k: int|
                            start <= k < vertices@.len() && #[trigger] covers(vertices@[k], w, u, v),
                decreases 32 - pos_perpendicular,
            {
                // iterate backwards through the chunk
                let layer = if negative { pos_perpendicular } else { 31 - pos_perpendicular };
                let ghost before = vertices@;
                visible = add_cell_face(vertices, input, dir, pos_parallel_x, pos_parallel_y, layer, visible);
                proof {
                    let t = 1024 * pos_parallel_x + 32 * pos_parallel_y + pos_perpendicular;
                    assert(culled_key(d, layer as int, pos_parallel_x as int, pos_parallel_y as int) == t);
                    assert(vertices@.subrange(0, start) =~= old_v) by {
                        assert(vertices@.subrange(0, start) =~= before.subrange(0, start));
                    }
                    assert forall|k: int| start <= k < before.len() implies #[trigger] vertices@[k] == before[k] by {
                        if vertices@ != before {
                            assert(vertices@[k] == vertices@.subrange(0, before.len() as int)[k]);
                        }
                    }
                    assert forall|w: int, u: int, v: int|
                        0 <= w < 32 && 0 <= u < 32 && 0 <= v < 32 && culled_key(d, w, u, v) < t + 1
                            && #[trigger] shown(input, d, w, u, v) implies exists|k: int|
                        start <= k < vertices@.len() && #[trigger] covers(vertices@[k], w, u, v) by {
                        if culled_key(d, w, u, v) < t {
                            let k = choose|k: int| start <= k < before.len() && #[trigger] covers(before[k], w, u, v);
                            assert(vertices@[k] == before[k]);
                        } else {
                            assert(u == pos_parallel_x && v == pos_parallel_y && w == layer);
                            assert(covers(vertices@[before.len() as int], w, u, v));
                        }
                    }
                    if pos_perpendicular + 1 < 32 {
                        let next: int = if negative { pos_perpendicular + 1 } else { 31 - (pos_perpendicular + 1) };
                        assert(layer_cell(d, pos_parallel_x as int, pos_parallel_y as int, (if negative { next - 1 } else { next + 1 })) == layer_cell(d, pos_parallel_x as int, pos_parallel_y as int, layer as int));
                    }
                }
                pos_perpendicular = pos_perpendicular + 1;
            }
            pos_parallel_y = pos_parallel_y + 1;
        }
        pos_parallel_x = pos_parallel_x + 1;
    }
    proof {
        let new = vertices@.subrange(start, vertices@.len() as int);
        assert forall|k: int| 0 <= k < new.len() implies quad_ok(input, d, #[trigger] new[k]) by {
            assert(new[k] == vertices@[start + k]);
        }
        assert forall|w: int, u: int, v: int|
            0 <= w < 32 && 0 <= u < 32 && 0 <= v < 32 && #[trigger] shown(input, d, w, u, v) implies exists|k: int|
            0 <= k < new.len() && #[trigger] covers(new[k], w, u, v) by {
            let k = choose|k: int| start <= k < vertices@.len() && #[trigger] covers(vertices@[k], w, u, v);
            assert(new[k - start] == vertices@[k]);
        }
        assert forall|k1: int, k2: int, w: int, u: int, v: int|
            0 <= k1 < k2 < new.len() && #[trigger] covers(new[k1], w, u, v) implies !#[trigger] covers(
            new[k2],
            w,
            u,
            v,
        ) by {
            assert(new[k1] == vertices@[start + k1]);
            assert(new[k2] == vertices@[start + k2]);
            assert(quad_key(d, vertices@[start + k1]) < quad_key(d, vertices@[start + k2]));
        }
    }
}

// ---------------------------------------------------------------------------------
// greedy meshing

/// Entry `(u, v)` of a per-layer table indexed `32 * v + u`.
pub open spec fn at<T>(s: Seq<T>, u: int, v: int) -> T {
    s[32 * v + u]
}

/// Cached interpolated light values are the face light of their cell.
spec fn cache_ok(input: ChunkMeshInput, dir: int, layer: int, cache: Seq<Option<FaceLightData>>) -> bool {
    &&& cache.len() == 1024
    &&& forall|u: int, v: int|
        0 <= u < 32 && 0 <= v < 32 && (#[trigger] at(cache, u, v)) is Some ==> at(cache, u, v)->0
            == face_light_spec(input, dir, layer_cell(dir, u, v, layer))
}

/// Decides whether the two faces can be merged
fn can_merge_faces(first: Option<BlockFace>, second: Option<BlockFace>) -> (r: bool)
    ensures
        r == (first == second),
{
    match (first, second) {
        (Some(a), Some(b)) => a.texture_index == b.texture_index,
        (None, None) => true,
        _ => false,
    }
}

/// Evaluate whether the base face can be merged with the face with coordinates
/// `merge_candidate_u` and `merge_candidate_v` in the layer with position `layer_pos`
/// returns two booleans: whether the face can be merged, and whether the block with the
/// same U and V coordinates in the following layer is visible
fn consider_merge_candidate(
    input: ChunkMeshInput,
    dir: FaceIndex,
    visible: &Vec<bool>,
    interpolated_light_cache: &mut Vec<Option<FaceLightData>>,
    layer_pos: u32,
    base_face: BlockFace,
    base_light_data: FaceLightData,
    merge_candidate_u: u32,
    merge_candidate_v: u32,
) -> (r: (bool, bool))
    requires
        input.wf(),
        dir.is_valid(),
        visible@.len() == 1024,
        cache_ok(input, dir.0 as int, layer_pos as int, old(interpolated_light_cache)@),
        layer_pos < 32,
        merge_candidate_u < 32,
        merge_candidate_v < 32,
    ensures
        cache_ok(input, dir.0 as int, layer_pos as int, final(interpolated_light_cache)@),
        r.1 == !input.solid(layer_cell(dir.0 as int, merge_candidate_u as int, merge_candidate_v as int, layer_pos as int)),
        r.0 == ({
            let c = layer_cell(dir.0 as int, merge_candidate_u as int, merge_candidate_v as int, layer_pos as int);
            &&& input.solid(c)
            &&& texture_spec(input, dir.0 as int, c) == base_face.texture_index
            &&& at(visible@, merge_candidate_u as int, merge_candidate_v as int)
            &&& face_light_spec(input, dir.0 as int, c) == base_light_data
        }),
{
    let merge_candidate_pos = rotate(dir.as_usize(), merge_candidate_u, merge_candidate_v, layer_pos);
    let merge_candidate_index = (32 * merge_candidate_v + merge_candidate_u) as usize;

    let merge_candidate_id = input.blocks[uvec3_to_chunk_index(merge_candidate_pos.0)];
    let merge_candidate_model = get_block(merge_candidate_id).model;
    let merge_candidate_face = merge_candidate_model.face(dir);
    let merge_candidate_visible = visible[merge_candidate_index];

    let next_visible = merge_candidate_model.face(dir.opposite()).is_none();

    let can_merge = can_merge_faces(Some(base_face), merge_candidate_face) && merge_candidate_visible;

    if !can_merge {
        return (false, next_visible);
    }
    let cached = interpolated_light_cache[merge_candidate_index];
    proof {
        assert(at(interpolated_light_cache@, merge_candidate_u as int, merge_candidate_v as int) == cached);
    }
    let merge_candidate_light_data = match cached {
        Some(cached_light_data) => cached_light_data,
        None => {
            let interpolated = interpolate_light_for_face(input, dir, merge_candidate_pos);
            interpolated_light_cache.set(merge_candidate_index, Some(interpolated));
            proof {
                assert forall|u: int, v: int|
                    0 <= u < 32 && 0 <= v < 32 && (#[trigger] at(interpolated_light_cache@, u, v)) is Some implies at(
                    interpolated_light_cache@,
                    u,
                    v,
                )->0 == face_light_spec(input, dir.0 as int, layer_cell(dir.0 as int, u, v, layer_pos as int)) by {
                    if 32 * v + u != merge_candidate_index {
                        assert(at(interpolated_light_cache@, u, v) == at(old(interpolated_light_cache)@, u, v));
                    } else {
                        assert(u == merge_candidate_u && v == merge_candidate_v);
                    }
                }
            }
            interpolated
        },
    };
    let light_matches = merge_candidate_light_data == base_light_data;

    (light_matches, next_visible)
}

/// `(u, v)` lies in the rectangle of cells `u0..u0 + su` by `v0..v0 + sv`.
pub open spec fn in_rect(u: int, v: int, u0: int, v0: int, su: int, sv: int) -> bool {
    u0 <= u < u0 + su && v0 <= v < v0 + sv
}

/// Every cell of the rectangle shows a face like the one at its corner `(u0, v0)`
/// (same texture, same light), and the cells other than the corner were not merged
/// into an earlier quad.
spec fn rect_matches(
    input: ChunkMeshInput,
    dir: int,
    layer: int,
    merged_a: Seq<bool>,
    u0: int,
    v0: int,
    su: int,
    sv: int,
    texture: usize,
    light: FaceLightData,
) -> bool {
    forall|u: int, v: int|
        #![trigger layer_cell(dir, u, v, layer)]
        in_rect(u, v, u0, v0, su, sv) ==> shown(input, dir, layer, u, v) && texture_spec(
            input,
            dir,
            layer_cell(dir, u, v, layer),
        ) == texture && face_light_spec(input, dir, layer_cell(dir, u, v, layer)) == light && (!(u
            == u0 && v == v0) ==> !at(merged_a, u, v))
}

/// Cell `(u, v)` of the layer shows a face like the quad's corner (same texture, same
/// light) and is not merged into a quad yet.
spec fn can_join(
    input: ChunkMeshInput,
    dir: int,
    layer: int,
    merged: Seq<bool>,
    u: int,
    v: int,
    texture: usize,
    light: FaceLightData,
) -> bool {
    &&& shown(input, dir, layer, u, v)
    &&& texture_spec(input, dir, layer_cell(dir, u, v, layer)) == texture
    &&& face_light_spec(input, dir, layer_cell(dir, u, v, layer)) == light
    &&& !at(merged, u, v)
}

/// Some quad of `quads` facing `dir` covers cell `(u, v)` of layer `w`.
pub open spec fn covered_by(quads: Seq<MeshQuad>, dir: int, w: int, u: int, v: int) -> bool {
    exists|j: int| 0 <= j < quads.len() && quads[j].face.0 == dir && #[trigger] covers(quads[j], w, u, v)
}

/// Cell `(u, v)` of quad `q`'s layer could join `q`: it shows a face like the quad's
/// (same texture, same light) and no quad of `earlier` covers it.
pub open spec fn joinable(input: ChunkMeshInput, earlier: Seq<MeshQuad>, q: MeshQuad, u: int, v: int) -> bool {
    let d = q.face.0 as int;
    let w = q.layer as int;
    &&& shown(input, d, w, u, v)
    &&& texture_spec(input, d, layer_cell(d, u, v, w)) == q.texture_index
    &&& face_light_spec(input, d, layer_cell(d, u, v, w)) == q.light
    &&& !covered_by(earlier, d, w, u, v)
}

/// Quad `k` of `quads` is the one greedy merging makes next: it starts at the first
/// drawn cell of its layer, by row `v` then `u`, that no earlier quad covers, grows
/// along `u` until the next cell cannot join it, then along `v` until some cell of the
/// next row cannot.
pub open spec fn greedy_quad(input: ChunkMeshInput, quads: Seq<MeshQuad>, k: int) -> bool {
    let q = quads[k];
    let earlier = quads.subrange(0, k);
    let d = q.face.0 as int;
    let w = q.layer as int;
    &&& forall|u: int, v: int|
        0 <= u < 32 && 0 <= v < 32 && 32 * v + u < 32 * q.v + q.u && #[trigger] shown(input, d, w, u, v)
            ==> covered_by(earlier, d, w, u, v)
    &&& q.u + q.size_u == 32 || !joinable(input, earlier, q, q.u + q.size_u, q.v as int)
    &&& q.v + q.size_v == 32 || exists|u: int|
        q.u <= u < q.u + q.size_u && !#[trigger] joinable(input, earlier, q, u, q.v + q.size_v)
}

/// The order greedy meshing makes quads in: by direction, then by layer from the
/// outside of the chunk inwards, then by the row `v` and the column `u` of the corner.
pub open spec fn greedy_key(q: MeshQuad) -> int {
    let d = q.face.0 as int;
    32768 * d + 1024 * (if negative_spec(d) {
        q.layer as int
    } else {
        31 - q.layer
    }) + 32 * q.v + q.u
}

/// `quads` are the quads greedy meshing makes, in the order it makes them.
pub open spec fn greedy_made(input: ChunkMeshInput, quads: Seq<MeshQuad>) -> bool {
    &&& forall|k: int| 0 <= k < quads.len() ==> #[trigger] greedy_quad(input, quads, k)
    &&& forall|k1: int, k2: int|
        0 <= k1 < k2 < quads.len() ==> greedy_key(#[trigger] quads[k1]) < greedy_key(#[trigger] quads[k2])
}

/// Quads facing another way or lying in another layer do not cover a cell.
proof fn lemma_covered_by_prefix(p: Seq<MeshQuad>, l: Seq<MeshQuad>, d: int, w: int, u: int, v: int)
    requires
        forall|i: int| 0 <= i < p.len() ==> !((#[trigger] p[i]).face.0 == d && p[i].layer == w),
    ensures
        covered_by(p + l, d, w, u, v) == covered_by(l, d, w, u, v),
{
    let pl = p + l;
    if covered_by(pl, d, w, u, v) {
        let j = choose|j: int| 0 <= j < pl.len() && pl[j].face.0 == d && #[trigger] covers(pl[j], w, u, v);
        if j < p.len() {
            assert(pl[j] == p[j]);
        } else {
            assert(pl[j] == l[j - p.len()]);
            assert(covers(l[j - p.len()], w, u, v));
        }
    }
    if covered_by(l, d, w, u, v) {
        let j = choose|j: int| 0 <= j < l.len() && l[j].face.0 == d && #[trigger] covers(l[j], w, u, v);
        assert(pl[p.len() + j] == l[j]);
        assert(covers(pl[p.len() + j], w, u, v));
    }
}

/// Greedy quads of other directions or layers made first, then greedy quads of one more
/// layer, are the quads greedy meshing makes.
proof fn lemma_greedy_concat(input: ChunkMeshInput, p: Seq<MeshQuad>, l: Seq<MeshQuad>)
    requires
        greedy_made(input, p),
        greedy_made(input, l),
        forall|i: int, j: int|
            0 <= i < p.len() && 0 <= j < l.len() ==> !((#[trigger] p[i]).face == (#[trigger] l[j]).face && p[i].layer == l[j].layer),
        forall|i: int, j: int|
            0 <= i < p.len() && 0 <= j < l.len() ==> greedy_key(#[trigger] p[i]) < greedy_key(#[trigger] l[j]),
    ensures
        greedy_made(input, p + l),
{
    let pl = p + l;
    let n = p.len() as int;
    assert forall|k: int| 0 <= k < pl.len() implies #[trigger] greedy_quad(input, pl, k) by {
        if k < n {
            assert(pl[k] == p[k]);
            assert(pl.subrange(0, k) =~= p.subrange(0, k));
            assert(greedy_quad(input, p, k));
        } else {
            let kl = k - n;
            let q = l[kl];
            let d = q.face.0 as int;
            let w = q.layer as int;
            assert(pl[k] == q);
            assert(greedy_quad(input, l, kl));
            let e = l.subrange(0, kl);
            assert(pl.subrange(0, k) =~= p + e);
            assert forall|i: int| 0 <= i < p.len() implies !((#[trigger] p[i]).face.0 == d && p[i].layer == w) by {
                assert(!(p[i].face == l[kl].face && p[i].layer == l[kl].layer));
            }
            assert forall|u: int, v: int|
                0 <= u < 32 && 0 <= v < 32 && 32 * v + u < 32 * q.v + q.u && #[trigger] shown(input, d, w, u, v)
                    implies covered_by(p + e, d, w, u, v) by {
                lemma_covered_by_prefix(p, e, d, w, u, v);
            }
            if q.u + q.size_u != 32 {
                lemma_covered_by_prefix(p, e, d, w, q.u + q.size_u, q.v as int);
                assert(!joinable(input, p + e, q, q.u + q.size_u, q.v as int));
            }
            if q.v + q.size_v != 32 {
                let u = choose|u: int| q.u <= u < q.u + q.size_u && !#[trigger] joinable(input, e, q, u, q.v + q.size_v);
                lemma_covered_by_prefix(p, e, d, w, u, q.v + q.size_v);
                assert(!joinable(input, p + e, q, u, q.v + q.size_v));
            }
        }
    }
    assert forall|k1: int, k2: int| 0 <= k1 < k2 < pl.len() implies greedy_key(#[trigger] pl[k1]) < greedy_key(#[trigger] pl[k2]) by {
        if k2 < n {
            assert(pl[k1] == p[k1] && pl[k2] == p[k2]);
        } else if k1 >= n {
            assert(pl[k1] == l[k1 - n] && pl[k2] == l[k2 - n]);
        } else {
            assert(pl[k1] == p[k1] && pl[k2] == l[k2 - n]);
        }
    }
}

/// The quads made so far in a layer, before the cell with index `t`, are the ones
/// greedy merging makes, in the order of their corners, and every merged cell lies in
/// one of them.
#[verifier::opaque]
spec fn layer_exact(input: ChunkMeshInput, dir: int, layer: int, merged: Seq<bool>, t: int, quads: Seq<MeshQuad>) -> bool {
    &&& forall|k: int| 0 <= k < quads.len() ==> 32 * (#[trigger] quads[k]).v + quads[k].u < t
    &&& forall|k1: int, k2: int|
        0 <= k1 < k2 < quads.len() ==> 32 * (#[trigger] quads[k1]).v + quads[k1].u < 32 * (#[trigger] quads[k2]).v
            + quads[k2].u
    &&& forall|u: int, v: int| 0 <= u < 32 && 0 <= v < 32 && #[trigger] at(merged, u, v) ==> covered_by(quads, dir, layer, u, v)
    &&& forall|k: int| 0 <= k < quads.len() ==> #[trigger] greedy_quad(input, quads, k)
}

/// A layer starts with no quads and nothing merged.
proof fn lemma_exact_init(input: ChunkMeshInput, dir: int, layer: int, merged: Seq<bool>)
    requires
        merged.len() == 1024,
        forall|i: int| 0 <= i < 1024 ==> !#[trigger] merged[i],
    ensures
        layer_exact(input, dir, layer, merged, 0, Seq::empty()),
{
    reveal(layer_exact);
    assert forall|u: int, v: int| 0 <= u < 32 && 0 <= v < 32 && #[trigger] at(merged, u, v) implies covered_by(
        Seq::<MeshQuad>::empty(),
        dir,
        layer,
        u,
        v,
    ) by {
        assert(!merged[32 * v + u]);
    }
}

/// Passing a cell without making a quad keeps the layer exact.
proof fn lemma_exact_skip(input: ChunkMeshInput, dir: int, layer: int, merged: Seq<bool>, t: int, quads: Seq<MeshQuad>)
    requires
        layer_exact(input, dir, layer, merged, t, quads),
    ensures
        layer_exact(input, dir, layer, merged, t + 1, quads),
{
    reveal(layer_exact);
}

/// The layer is done.
proof fn lemma_exact_done(input: ChunkMeshInput, dir: int, layer: int, merged: Seq<bool>, t: int, quads: Seq<MeshQuad>)
    requires
        layer_exact(input, dir, layer, merged, t, quads),
    ensures
        forall|k: int| 0 <= k < quads.len() ==> #[trigger] greedy_quad(input, quads, k),
        forall|k1: int, k2: int|
            0 <= k1 < k2 < quads.len() ==> 32 * (#[trigger] quads[k1]).v + quads[k1].u < 32 * (#[trigger] quads[k2]).v
                + quads[k2].u,
{
    reveal(layer_exact);
}

/// Making the quad at the cell with index `t`, grown by the marches, keeps the layer
/// exact.
proof fn lemma_exact_push(
    input: ChunkMeshInput,
    dir: int,
    layer: int,
    merged_a: Seq<bool>,
    merged_f: Seq<bool>,
    t: int,
    qb: Seq<MeshQuad>,
    q: MeshQuad,
)
    requires
        layer_exact(input, dir, layer, merged_a, t, qb),
        forall|k: int| 0 <= k < qb.len() ==> (#[trigger] qb[k]).face.0 == dir,
        forall|u: int, v: int|
            0 <= u < 32 && 0 <= v < 32 && 32 * v + u < t && #[trigger] shown(input, dir, layer, u, v) ==> exists|k: int|
                0 <= k < qb.len() && #[trigger] covers(qb[k], layer, u, v),
        q.face.0 == dir,
        q.layer == layer,
        32 * q.v + q.u == t,
        1 <= q.size_u,
        1 <= q.size_v,
        q.u + q.size_u <= 32,
        q.v + q.size_v <= 32,
        merged_f.len() == 1024,
        forall|u: int, v: int|
            0 <= u < 32 && 0 <= v < 32 ==> #[trigger] at(merged_f, u, v) == (at(merged_a, u, v) || (in_rect(
                u,
                v,
                q.u as int,
                q.v as int,
                q.size_u as int,
                q.size_v as int,
            ) && !(u == q.u && v == q.v))),
        q.u + q.size_u == 32 || !can_join(input, dir, layer, merged_a, q.u + q.size_u, q.v as int, q.texture_index, q.light),
        q.v + q.size_v == 32 || exists|u: int|
            q.u <= u < q.u + q.size_u && !#[trigger] can_join(input, dir, layer, merged_a, u, q.v + q.size_v, q.texture_index, q.light),
    ensures
        layer_exact(input, dir, layer, merged_f, t + 1, qb.push(q)),
{
    reveal(layer_exact);
    let qn = qb.push(q);
    let n = qb.len() as int;
    assert(qn.subrange(0, n) =~= qb);
    assert forall|k: int| 0 <= k < qn.len() implies 32 * (#[trigger] qn[k]).v + qn[k].u < t + 1 by {
        if k < n {
            assert(qn[k] == qb[k]);
        }
    }
    assert forall|k1: int, k2: int| 0 <= k1 < k2 < qn.len() implies 32 * (#[trigger] qn[k1]).v + qn[k1].u < 32 * (
    #[trigger] qn[k2]).v + qn[k2].u by {
        assert(qn[k1] == qb[k1]);
        if k2 < n {
            assert(qn[k2] == qb[k2]);
        }
    }
    // a cell merged before lies in an earlier quad
    assert forall|u: int, v: int| 0 <= u < 32 && 0 <= v < 32 && at(merged_a, u, v) implies covered_by(qb, dir, layer, u, v) by {
        assert(at(merged_a, u, v));
    }
    assert forall|u: int, v: int| 0 <= u < 32 && 0 <= v < 32 && #[trigger] at(merged_f, u, v) implies covered_by(qn, dir, layer, u, v) by {
        if at(merged_a, u, v) {
            let j = choose|j: int| 0 <= j < qb.len() && qb[j].face.0 == dir && #[trigger] covers(qb[j], layer, u, v);
            assert(qn[j] == qb[j]);
        } else {
            assert(covers(qn[n], layer, u, v));
        }
    }
    assert forall|k: int| 0 <= k < qn.len() implies #[trigger] greedy_quad(input, qn, k) by {
        if k < n {
            assert(qn[k] == qb[k]);
            assert(qn.subrange(0, k) =~= qb.subrange(0, k));
            assert(greedy_quad(input, qb, k));
        } else {
            assert(qn[k] == q);
            assert(qn.subrange(0, k) =~= qb);
            assert forall|u: int, v: int|
                0 <= u < 32 && 0 <= v < 32 && 32 * v + u < 32 * q.v + q.u && #[trigger] shown(input, dir, layer, u, v)
                    implies covered_by(qb, dir, layer, u, v) by {
                let j = choose|j: int| 0 <= j < qb.len() && #[trigger] covers(qb[j], layer, u, v);
                assert(qb[j].face.0 == dir);
            }
            if q.u + q.size_u != 32 {
                assert(!joinable(input, qb, q, q.u + q.size_u, q.v as int)) by {
                    let cu = q.u + q.size_u;
                    if joinable(input, qb, q, cu, q.v as int) && at(merged_a, cu, q.v as int) {
                        assert(covered_by(qb, dir, layer, cu, q.v as int));
                    }
                }
            }
            if q.v + q.size_v != 32 {
                let u = choose|u: int| q.u <= u < q.u + q.size_u && !#[trigger] can_join(input, dir, layer, merged_a, u, q.v + q.size_v, q.texture_index, q.light);
                assert(!joinable(input, qb, q, u, q.v + q.size_v)) by {
                    if joinable(input, qb, q, u, q.v + q.size_v) && at(merged_a, u, q.v + q.size_v) {
                        assert(covered_by(qb, dir, layer, u, q.v + q.size_v));
                    }
                }
            }
        }
    }
}

/// Merge and visibility tables after growing the quad at `(u0, v0)` to `su` by `sv`:
/// its cells other than the corner are marked merged, with the visibility of the
/// next layer through them.
spec fn rect_applied(
    input: ChunkMeshInput,
    dir: int,
    layer: int,
    merged_a: Seq<bool>,
    vis_a: Seq<bool>,
    merged: Seq<bool>,
    visible: Seq<bool>,
    u0: int,
    v0: int,
    su: int,
    sv: int,
) -> bool {
    &&& merged.len() == 1024
    &&& visible.len() == 1024
    &&& forall|u: int, v: int|
        0 <= u < 32 && 0 <= v < 32 ==> #[trigger] at(merged, u, v) == (at(merged_a, u, v) || (in_rect(
            u,
            v,
            u0,
            v0,
            su,
            sv,
        ) && !(u == u0 && v == v0)))
    &&& forall|u: int, v: int|
        0 <= u < 32 && 0 <= v < 32 ==> #[trigger] at(visible, u, v) == if in_rect(u, v, u0, v0, su, sv)
            && !(u == u0 && v == v0) {
            !input.solid(layer_cell(dir, u, v, layer))
        } else {
            at(vis_a, u, v)
        }
}

/// What the tables say of the cells not yet merged, relative to the start visibility
/// `vis0` of the layer, when the quad starting at cell index `t` is being grown.
spec fn tables_before_quad(
    input: ChunkMeshInput,
    dir: int,
    layer: int,
    vis0: Seq<bool>,
    merged_a: Seq<bool>,
    vis_a: Seq<bool>,
    t: int,
) -> bool {
    &&& merged_a.len() == 1024
    &&& vis_a.len() == 1024
    &&& vis0.len() == 1024
    &&& forall|u: int, v: int|
        0 <= u < 32 && 0 <= v < 32 && 32 * v + u > t && !at(merged_a, u, v) ==> #[trigger] at(vis_a, u, v)
            == at(vis0, u, v)
    &&& forall|u: int, v: int|
        0 <= u < 32 && 0 <= v < 32 && #[trigger] at(merged_a, u, v) ==> at(vis_a, u, v)
            == !input.solid(layer_cell(dir, u, v, layer))
    &&& forall|u: int, v: int|
        0 <= u < 32 && 0 <= v < 32 ==> #[trigger] at(vis0, u, v) == visible_spec(input, dir, layer, u, v)
}

/// March along `u` from the quad's corner, merging the faces that match it.
fn greedy_u_march(
    input: ChunkMeshInput,
    dir: FaceIndex,
    visible: &mut Vec<bool>,
    already_merged: &mut Vec<bool>,
    interpolated_light_cache: &mut Vec<Option<FaceLightData>>,
    layer_pos: u32,
    base_face: BlockFace,
    base_light_data: FaceLightData,
    base_u: u32,
    base_v: u32,
    Ghost(vis0): Ghost<Seq<bool>>,
) -> (size_u: u32)
    requires
        input.wf(),
        dir.is_valid(),
        layer_pos < 32,
        base_u < 32,
        base_v < 32,
        cache_ok(input, dir.0 as int, layer_pos as int, old(interpolated_light_cache)@),
        tables_before_quad(
            input,
            dir.0 as int,
            layer_pos as int,
            vis0,
            old(already_merged)@,
            old(visible)@,
            32 * base_v + base_u,
        ),
        rect_matches(
            input,
            dir.0 as int,
            layer_pos as int,
            old(already_merged)@,
            base_u as int,
            base_v as int,
            1,
            1,
            base_face.texture_index,
            base_light_data,
        ),
    ensures
        1 <= size_u,
        base_u + size_u <= 32,
        cache_ok(input, dir.0 as int, layer_pos as int, final(interpolated_light_cache)@),
        rect_matches(
            input,
            dir.0 as int,
            layer_pos as int,
            old(already_merged)@,
            base_u as int,
            base_v as int,
            size_u as int,
            1,
            base_face.texture_index,
            base_light_data,
        ),
        rect_applied(
            input,
            dir.0 as int,
            layer_pos as int,
            old(already_merged)@,
            old(visible)@,
            final(already_merged)@,
            final(visible)@,
            base_u as int,
            base_v as int,
            size_u as int,
            1,
        ),
        base_u + size_u == 32 || !can_join(
            input,
            dir.0 as int,
            layer_pos as int,
            old(already_merged)@,
            base_u + size_u,
            base_v as int,
            base_face.texture_index,
            base_light_data,
        ),
{
    let ghost d = dir.0 as int;
    let ghost lp = layer_pos as int;
    let ghost merged_a = already_merged@;
    let ghost vis_a = visible@;
    let ghost t = 32 * base_v + base_u;
    let mut size_u: u32 = 1;
    let mut merge_candidate_u: u32 = base_u + 1;
    while merge_candidate_u < 32
        invariant_except_break
            merge_candidate_u == base_u + size_u,
        invariant
            input.wf(),
            dir.is_valid(),
            d == dir.0,
            lp == layer_pos,
            layer_pos < 32,
            base_u < 32,
            base_v < 32,
            t == 32 * base_v + base_u,
            1 <= size_u,
            base_u + size_u <= 32,
            cache_ok(input, d, lp, interpolated_light_cache@),
            tables_before_quad(input, d, lp, vis0, merged_a, vis_a, t),
            rect_matches(input, d, lp, merged_a, base_u as int, base_v as int, size_u as int, 1, base_face.texture_index, base_light_data),
            rect_applied(input, d, lp, merged_a, vis_a, already_merged@, visible@, base_u as int, base_v as int, size_u as int, 1),
        ensures
            1 <= size_u,
            base_u + size_u <= 32,
            cache_ok(input, d, lp, interpolated_light_cache@),
            rect_matches(input, d, lp, merged_a, base_u as int, base_v as int, size_u as int, 1, base_face.texture_index, base_light_data),
            rect_applied(input, d, lp, merged_a, vis_a, already_merged@, visible@, base_u as int, base_v as int, size_u as int, 1),
            base_u + size_u == 32 || !can_join(input, d, lp, merged_a, base_u + size_u, base_v as int, base_face.texture_index, base_light_data),
        decreases 32 - merge_candidate_u,
    {
        let (can_merge, next_visible) = consider_merge_candidate(
            input,
            dir,
            visible,
            interpolated_light_cache,
            layer_pos,
            base_face,
            base_light_data,
            merge_candidate_u,
            base_v,
        );

        // stop counting when we can't merge any more faces
        if !can_merge {
            proof {
                let cu = merge_candidate_u as int;
                let cv = base_v as int;
                assert(!in_rect(cu, cv, base_u as int, base_v as int, size_u as int, 1));
                assert(at(visible@, cu, cv) == at(vis_a, cu, cv));
                if !at(merged_a, cu, cv) {
                    assert(32 * cv + cu > t);
                    assert(at(vis_a, cu, cv) == at(vis0, cu, cv));
                }
            }
            break ;
        }
        proof {
            let cu = merge_candidate_u as int;
            let cv = base_v as int;
            // the candidate is past the corner and was not merged before: a merged
            // cell is never visible behind a solid block
            assert(!in_rect(cu, cv, base_u as int, base_v as int, size_u as int, 1));
            assert(at(visible@, cu, cv) == at(vis_a, cu, cv));
            assert(!at(merged_a, cu, cv));
            assert(32 * cv + cu > t);
            assert(at(vis_a, cu, cv) == at(vis0, cu, cv));
        }

        let merged_index_in_layer = (32 * base_v + merge_candidate_u) as usize;
        let ghost merged_before = already_merged@;
        let ghost visible_before = visible@;

        // grow the face
        size_u = size_u + 1;

        // mark that this face is already merged
        already_merged.set(merged_index_in_layer, true);

        // update `visible` for the same block in the next layer
        // (this would not otherwise occur)
        visible.set(merged_index_in_layer, next_visible);
        proof {
            let cu = merge_candidate_u as int;
            let cv = base_v as int;
            assert forall|u: int, v: int| 0 <= u < 32 && 0 <= v < 32 implies #[trigger] at(already_merged@, u, v)
                == (at(merged_a, u, v) || (in_rect(u, v, base_u as int, base_v as int, size_u as int, 1)
                && !(u == base_u && v == base_v))) by {
                if u != cu || v != cv {
                    assert(at(already_merged@, u, v) == at(merged_before, u, v));
                }
            }
            assert forall|u: int, v: int| 0 <= u < 32 && 0 <= v < 32 implies #[trigger] at(visible@, u, v)
                == if in_rect(u, v, base_u as int, base_v as int, size_u as int, 1) && !(u == base_u
                && v == base_v) {
                !input.solid(layer_cell(d, u, v, lp))
            } else {
                at(vis_a, u, v)
            } by {
                if u != cu || v != cv {
                    assert(at(visible@, u, v) == at(visible_before, u, v));
                }
            }
            assert forall|u: int, v: int|
                #![trigger layer_cell(d, u, v, lp)]
                in_rect(u, v, base_u as int, base_v as int, size_u as int, 1) implies shown(input, d, lp, u, v)
                && texture_spec(input, d, layer_cell(d, u, v, lp)) == base_face.texture_index && face_light_spec(
                input,
                d,
                layer_cell(d, u, v, lp),
            ) == base_light_data && (!(u == base_u && v == base_v) ==> !at(merged_a, u, v)) by {
                if u == cu && v == cv {
                    assert(at(vis0, u, v) == visible_spec(input, d, lp, u, v));
                }
            }
        }
        merge_candidate_u = merge_candidate_u + 1;
    }
    size_u
}

/// March along `v` from the quad's first row, merging whole rows whose faces all
/// match the quad's corner.
fn greedy_v_march(
    input: ChunkMeshInput,
    dir: FaceIndex,
    visible: &mut Vec<bool>,
    already_merged: &mut Vec<bool>,
    interpolated_light_cache: &mut Vec<Option<FaceLightData>>,
    layer_pos: u32,
    base_face: BlockFace,
    base_light_data: FaceLightData,
    base_u: u32,
    base_v: u32,
    size_u: u32,
    Ghost(vis0): Ghost<Seq<bool>>,
    Ghost(merged_a): Ghost<Seq<bool>>,
    Ghost(vis_a): Ghost<Seq<bool>>,
) -> (size_v: u32)
    requires
        input.wf(),
        dir.is_valid(),
        layer_pos < 32,
        base_u < 32,
        base_v < 32,
        1 <= size_u,
        base_u + size_u <= 32,
        cache_ok(input, dir.0 as int, layer_pos as int, old(interpolated_light_cache)@),
        tables_before_quad(input, dir.0 as int, layer_pos as int, vis0, merged_a, vis_a, 32 * base_v + base_u),
        rect_matches(input, dir.0 as int, layer_pos as int, merged_a, base_u as int, base_v as int, size_u as int, 1, base_face.texture_index, base_light_data),
        rect_applied(input, dir.0 as int, layer_pos as int, merged_a, vis_a, old(already_merged)@, old(visible)@, base_u as int, base_v as int, size_u as int, 1),
    ensures
        1 <= size_v,
        base_v + size_v <= 32,
        cache_ok(input, dir.0 as int, layer_pos as int, final(interpolated_light_cache)@),
        rect_matches(input, dir.0 as int, layer_pos as int, merged_a, base_u as int, base_v as int, size_u as int, size_v as int, base_face.texture_index, base_light_data),
        rect_applied(input, dir.0 as int, layer_pos as int, merged_a, vis_a, final(already_merged)@, final(visible)@, base_u as int, base_v as int, size_u as int, size_v as int),
        base_v + size_v == 32 || exists|u: int|
            base_u <= u < base_u + size_u && !#[trigger] can_join(
                input,
                dir.0 as int,
                layer_pos as int,
                merged_a,
                u,
                base_v + size_v,
                base_face.texture_index,
                base_light_data,
            ),
{
    let ghost d = dir.0 as int;
    let ghost lp = layer_pos as int;
    let ghost t = 32 * base_v + base_u;
    let ghost u0 = base_u as int;
    let ghost v0 = base_v as int;
    let ghost su = size_u as int;
    let mut size_v: u32 = 1;
    let mut merge_candidate_v: u32 = base_v + 1;
    while merge_candidate_v < 32
        invariant_except_break
            merge_candidate_v == base_v + size_v,
        invariant
            input.wf(),
            dir.is_valid(),
            d == dir.0,
            lp == layer_pos,
            u0 == base_u,
            v0 == base_v,
            su == size_u,
            layer_pos < 32,
            base_u < 32,
            base_v < 32,
            1 <= size_u,
            base_u + size_u <= 32,
            t == 32 * base_v + base_u,
            1 <= size_v,
            base_v + size_v <= 32,
            cache_ok(input, d, lp, interpolated_light_cache@),
            tables_before_quad(input, d, lp, vis0, merged_a, vis_a, t),
            rect_matches(input, d, lp, merged_a, u0, v0, su, size_v as int, base_face.texture_index, base_light_data),
            rect_applied(input, d, lp, merged_a, vis_a, already_merged@, visible@, u0, v0, su, size_v as int),
        ensures
            1 <= size_v,
            base_v + size_v <= 32,
            cache_ok(input, d, lp, interpolated_light_cache@),
            rect_matches(input, d, lp, merged_a, u0, v0, su, size_v as int, base_face.texture_index, base_light_data),
            rect_applied(input, d, lp, merged_a, vis_a, already_merged@, visible@, u0, v0, su, size_v as int),
            base_v + size_v == 32 || exists|u: int|
                base_u <= u < base_u + size_u && !#[trigger] can_join(
                    input,
                    d,
                    lp,
                    merged_a,
                    u,
                    base_v + size_v,
                    base_face.texture_index,
                    base_light_data,
                ),
        decreases 32 - merge_candidate_v,
    {
        // whether the block adjacent to each block being considered for merging will be
        // visible; this avoids having to check the model again once it has been decided
        // the layers can be merged
        let mut next_visible_row: Vec<bool> = Vec::new();
        let mut row_mergeable = true;

        // see if we can merge the next layer down by checking all blocks on this
        // layer in the U direction
        let mut merge_candidate_u: u32 = base_u;
        while merge_candidate_u < base_u + size_u
            invariant_except_break
                row_mergeable,
            invariant
                input.wf(),
                dir.is_valid(),
                d == dir.0,
                lp == layer_pos,
                u0 == base_u,
                v0 == base_v,
                su == size_u,
                layer_pos < 32,
                base_u < 32,
                base_v < 32,
                1 <= size_u,
                base_u + size_u <= 32,
                t == 32 * base_v + base_u,
                merge_candidate_v == base_v + size_v,
                1 <= size_v,
                merge_candidate_v < 32,
                base_u <= merge_candidate_u <= base_u + size_u,
                next_visible_row@.len() == merge_candidate_u - base_u,
                cache_ok(input, d, lp, interpolated_light_cache@),
                tables_before_quad(input, d, lp, vis0, merged_a, vis_a, t),
                rect_applied(input, d, lp, merged_a, vis_a, already_merged@, visible@, u0, v0, su, size_v as int),
                forall|i: int|
                    0 <= i < next_visible_row@.len() ==> #[trigger] next_visible_row@[i] == !input.solid(
                        layer_cell(d, u0 + i, merge_candidate_v as int, lp),
                    ),
                rect_matches(input, d, lp, merged_a, u0, merge_candidate_v as int, next_visible_row@.len() as int, 1, base_face.texture_index, base_light_data),
                forall|i: int| 0 <= i < next_visible_row@.len() ==> !#[trigger] at(merged_a, u0 + i, merge_candidate_v as int),
            ensures
                row_mergeable ==> next_visible_row@.len() == su,
                !row_mergeable ==> base_u <= merge_candidate_u < base_u + size_u && !can_join(
                    input,
                    d,
                    lp,
                    merged_a,
                    merge_candidate_u as int,
                    merge_candidate_v as int,
                    base_face.texture_index,
                    base_light_data,
                ),
                cache_ok(input, d, lp, interpolated_light_cache@),
                forall|i: int|
                    0 <= i < next_visible_row@.len() ==> #[trigger] next_visible_row@[i] == !input.solid(
                        layer_cell(d, u0 + i, merge_candidate_v as int, lp),
                    ),
                rect_matches(input, d, lp, merged_a, u0, merge_candidate_v as int, next_visible_row@.len() as int, 1, base_face.texture_index, base_light_data),
                forall|i: int| 0 <= i < next_visible_row@.len() ==> !#[trigger] at(merged_a, u0 + i, merge_candidate_v as int),
            decreases base_u + size_u - merge_candidate_u,
        {
            let (can_merge, next_visible) = consider_merge_candidate(
                input,
                dir,
                visible,
                interpolated_light_cache,
                layer_pos,
                base_face,
                base_light_data,
                merge_candidate_u,
                merge_candidate_v,
            );

            // stop counting when we can't merge any more faces
            if !can_merge {
                proof {
                    let cu = merge_candidate_u as int;
                    let cv = merge_candidate_v as int;
                    assert(!in_rect(cu, cv, u0, v0, su, size_v as int));
                    assert(at(visible@, cu, cv) == at(vis_a, cu, cv));
                    if !at(merged_a, cu, cv) {
                        assert(32 * cv + cu > t);
                        assert(at(vis_a, cu, cv) == at(vis0, cu, cv));
                        assert(at(vis0, cu, cv) == visible_spec(input, d, lp, cu, cv));
                    }
                }
                row_mergeable = false;
                break ;
            }
            proof {
                let cu = merge_candidate_u as int;
                let cv = merge_candidate_v as int;
                assert(!in_rect(cu, cv, u0, v0, su, size_v as int));
                assert(at(visible@, cu, cv) == at(vis_a, cu, cv));
                assert(!at(merged_a, cu, cv));
                assert(32 * cv + cu > t);
                assert(at(vis_a, cu, cv) == at(vis0, cu, cv));
                assert(at(vis0, cu, cv) == visible_spec(input, d, lp, cu, cv));
            }
            let ghost row_before = next_visible_row@;
            next_visible_row.push(next_visible);
            proof {
                let n = next_visible_row@.len() as int;
                assert forall|u: int, v: int|
                    #![trigger layer_cell(d, u, v, lp)]
                    in_rect(u, v, u0, merge_candidate_v as int, n, 1) implies shown(input, d, lp, u, v)
                    && texture_spec(input, d, layer_cell(d, u, v, lp)) == base_face.texture_index
                    && face_light_spec(input, d, layer_cell(d, u, v, lp)) == base_light_data && (!(u
                    == u0 && v == merge_candidate_v) ==> !at(merged_a, u, v)) by {
                    if u < merge_candidate_u {
                        assert(in_rect(u, v, u0, merge_candidate_v as int, n - 1, 1));
                    }
                }
                assert forall|i: int| 0 <= i < n implies #[trigger] next_visible_row@[i] == !input.solid(
                    layer_cell(d, u0 + i, merge_candidate_v as int, lp),
                ) by {
                    if i < n - 1 {
                        assert(next_visible_row@[i] == row_before[i]);
                    }
                }
                assert forall|i: int| 0 <= i < n implies !#[trigger] at(merged_a, u0 + i, merge_candidate_v as int) by {
                    if i == n - 1 {
                        assert(u0 + i == merge_candidate_u);
                    }
                }
            }
            merge_candidate_u = merge_candidate_u + 1;
        }
        if !row_mergeable {
            proof {
                assert(base_u <= merge_candidate_u < base_u + size_u && !can_join(input, d, lp, merged_a,
                    merge_candidate_u as int, base_v + size_v, base_face.texture_index, base_light_data));
            }
            break ;
        }

        // merge layers
        let ghost sv_old = size_v as int;
        size_v = size_v + 1;

        // mark all faces in the layer as merged
        let mut merged_x: u32 = base_u;
        while merged_x < base_u + size_u
            invariant
                input.wf(),
                d == dir.0,
                lp == layer_pos,
                u0 == base_u,
                v0 == base_v,
                su == size_u,
                layer_pos < 32,
                1 <= size_u,
                base_u + size_u <= 32,
                merge_candidate_v == base_v + sv_old,
                merge_candidate_v < 32,
                base_u <= merged_x <= base_u + size_u,
                next_visible_row@.len() == su,
                forall|i: int|
                    0 <= i < next_visible_row@.len() ==> #[trigger] next_visible_row@[i] == !input.solid(
                        layer_cell(d, u0 + i, merge_candidate_v as int, lp),
                    ),
                already_merged@.len() == 1024,
                visible@.len() == 1024,
                forall|u: int, v: int|
                    0 <= u < 32 && 0 <= v < 32 ==> #[trigger] at(already_merged@, u, v) == (at(merged_a, u, v) || (
                    in_rect(u, v, u0, v0, su, sv_old) && !(u == u0 && v == v0)) || (v == merge_candidate_v
                        && u0 <= u < merged_x)),
                forall|u: int, v: int|
                    0 <= u < 32 && 0 <= v < 32 ==> #[trigger] at(visible@, u, v) == if (in_rect(u, v, u0, v0, su, sv_old)
                        && !(u == u0 && v == v0)) || (v == merge_candidate_v && u0 <= u < merged_x) {
                        !input.solid(layer_cell(d, u, v, lp))
                    } else {
                        at(vis_a, u, v)
                    },
            decreases base_u + size_u - merged_x,
        {
            let merged_index_in_layer = (32 * merge_candidate_v + merged_x) as usize;
            let ghost merged_before = already_merged@;
            let ghost visible_before = visible@;
            already_merged.set(merged_index_in_layer, true);

            // update `visible` for the same block in the next layer
            // visibility flags already computed
            // (this would not otherwise occur)
            visible.set(merged_index_in_layer, next_visible_row[(merged_x - base_u) as usize]);
            proof {
                let cu = merged_x as int;
                let cv = merge_candidate_v as int;
                assert forall|u: int, v: int| 0 <= u < 32 && 0 <= v < 32 implies #[trigger] at(already_merged@, u, v)
                    == (at(merged_a, u, v) || (in_rect(u, v, u0, v0, su, sv_old) && !(u == u0 && v == v0)) || (v
                    == merge_candidate_v && u0 <= u < merged_x + 1)) by {
                    if u != cu || v != cv {
                        assert(at(already_merged@, u, v) == at(merged_before, u, v));
                    }
                }
                assert forall|u: int, v: int| 0 <= u < 32 && 0 <= v < 32 implies #[trigger] at(visible@, u, v)
                    == if (in_rect(u, v, u0, v0, su, sv_old) && !(u == u0 && v == v0)) || (v == merge_candidate_v
                    && u0 <= u < merged_x + 1) {
                    !input.solid(layer_cell(d, u, v, lp))
                } else {
                    at(vis_a, u, v)
                } by {
                    if u != cu || v != cv {
                        assert(at(visible@, u, v) == at(visible_before, u, v));
                    } else {
                        assert(next_visible_row@[cu - u0] == !input.solid(layer_cell(d, u0 + (cu - u0), cv, lp)));
                    }
                }
            }
            merged_x = merged_x + 1;
        }
        proof {
            let sv = size_v as int;
            assert forall|u: int, v: int|
                #![trigger layer_cell(d, u, v, lp)]
                in_rect(u, v, u0, v0, su, sv) implies shown(input, d, lp, u, v)
                && texture_spec(input, d, layer_cell(d, u, v, lp)) == base_face.texture_index
                && face_light_spec(input, d, layer_cell(d, u, v, lp)) == base_light_data && (!(u
                == u0 && v == v0) ==> !at(merged_a, u, v)) by {
                if v < merge_candidate_v {
                    assert(in_rect(u, v, u0, v0, su, sv_old));
                } else {
                    assert(in_rect(u, v, u0, merge_candidate_v as int, next_visible_row@.len() as int, 1));
                    assert(!at(merged_a, u0 + (u - u0), merge_candidate_v as int));
                }
            }
        }
        merge_candidate_v = merge_candidate_v + 1;
    }
    size_v
}

/// The state of a layer being meshed greedily, before the cell with index `t`:
/// cells before `t` and merged cells have the visibility of the next layer, the
/// others that of this layer; the quads made so far are correct, lie on cells before
/// `t` or merged, cover every drawn face there and do not overlap.
spec fn layer_state(
    input: ChunkMeshInput,
    dir: int,
    layer: int,
    vis0: Seq<bool>,
    visible: Seq<bool>,
    merged: Seq<bool>,
    t: int,
    quads: Seq<MeshQuad>,
) -> bool {
    &&& vis0.len() == 1024
    &&& visible.len() == 1024
    &&& merged.len() == 1024
    &&& forall|u: int, v: int|
        0 <= u < 32 && 0 <= v < 32 ==> #[trigger] at(vis0, u, v) == visible_spec(input, dir, layer, u, v)
    &&& forall|u: int, v: int|
        0 <= u < 32 && 0 <= v < 32 ==> #[trigger] at(visible, u, v) == if 32 * v + u < t || at(
            merged,
            u,
            v,
        ) {
            !input.solid(layer_cell(dir, u, v, layer))
        } else {
            at(vis0, u, v)
        }
    &&& forall|k: int|
        0 <= k < quads.len() ==> quad_ok(input, dir, #[trigger] quads[k]) && quads[k].layer == layer
    &&& forall|k: int, u: int, v: int|
        0 <= k < quads.len() && 0 <= u < 32 && 0 <= v < 32 && #[trigger] covers(quads[k], layer, u, v)
            ==> 32 * v + u < t || at(merged, u, v)
    &&& forall|u: int, v: int|
        0 <= u < 32 && 0 <= v < 32 && (32 * v + u < t || at(merged, u, v)) && #[trigger] shown(
            input,
            dir,
            layer,
            u,
            v,
        ) ==> exists|k: int| 0 <= k < quads.len() && #[trigger] covers(quads[k], layer, u, v)
    &&& forall|k1: int, k2: int, w: int, u: int, v: int|
        0 <= k1 < k2 < quads.len() && #[trigger] covers(quads[k1], w, u, v) ==> !#[trigger] covers(
            quads[k2],
            w,
            u,
            v,
        )
}

/// Greedily merge the drawn faces of one layer into quads; `visible` goes from this
/// layer's visibility to the next layer's.
#[verifier::spinoff_prover]
#[verifier::rlimit(100)]
fn greedy_layer(vertices: &mut Vec<MeshQuad>, input: ChunkMeshInput, dir: FaceIndex, layer_pos: u32, visible: &mut Vec<bool>)
    requires
        input.wf(),
        dir.is_valid(),
        layer_pos < 32,
        old(visible)@.len() == 1024,
        forall|u: int, v: int|
            0 <= u < 32 && 0 <= v < 32 ==> #[trigger] at(old(visible)@, u, v) == visible_spec(input, dir.0 as int, layer_pos as int, u, v),
    ensures
        final(visible)@.len() == 1024,
        forall|u: int, v: int|
            0 <= u < 32 && 0 <= v < 32 ==> #[trigger] at(final(visible)@, u, v) == !input.solid(layer_cell(dir.0 as int, u, v, layer_pos as int)),
        final(vertices)@.len() >= old(vertices)@.len(),
        final(vertices)@.subrange(0, old(vertices)@.len() as int) == old(vertices)@,
        ({
            let new = final(vertices)@.subrange(old(vertices)@.len() as int, final(vertices)@.len() as int);
            &&& forall|k: int| 0 <= k < new.len() ==> quad_ok(input, dir.0 as int, #[trigger] new[k]) && new[k].layer == layer_pos
            &&& forall|u: int, v: int|
                0 <= u < 32 && 0 <= v < 32 && #[trigger] shown(input, dir.0 as int, layer_pos as int, u, v) ==> exists|k: int|
                    0 <= k < new.len() && #[trigger] covers(new[k], layer_pos as int, u, v)
            &&& forall|k1: int, k2: int, w: int, u: int, v: int|
                0 <= k1 < k2 < new.len() && #[trigger] covers(new[k1], w, u, v) ==> !#[trigger] covers(new[k2], w, u, v)
            &&& forall|k: int| 0 <= k < new.len() ==> #[trigger] greedy_quad(input, new, k)
            &&& forall|k1: int, k2: int|
                0 <= k1 < k2 < new.len() ==> 32 * (#[trigger] new[k1]).v + new[k1].u < 32 * (#[trigger] new[k2]).v + new[k2].u
        }),
{
    let ghost d = dir.0 as int;
    let ghost lp = layer_pos as int;
    let ghost vis0 = visible@;
    let ghost start = vertices@.len() as int;
    let ghost old_v = vertices@;
    let dir_index = dir.as_usize();

    // this will track which faces have already been merged with another
    // already merged faces can safely be ignored
    let mut already_merged: Vec<bool> = Vec::new();
    // this is used to cache the interpolated light data for faces, to avoid computing it twice
    // for the same face
    let mut interpolated_light_cache: Vec<Option<FaceLightData>> = Vec::new();
    while already_merged.len() < 1024
        invariant
            already_merged@.len() == interpolated_light_cache@.len(),
            already_merged@.len() <= 1024,
            forall|i: int| 0 <= i < already_merged@.len() ==> !#[trigger] already_merged@[i],
            forall|i: int| 0 <= i < interpolated_light_cache@.len() ==> (#[trigger] interpolated_light_cache@[i]) is None,
        decreases 1024 - already_merged@.len(),
    {
        already_merged.push(false);
        interpolated_light_cache.push(None);
    }
    proof {
        assert(vertices@.subrange(start, vertices@.len() as int) =~= Seq::<MeshQuad>::empty());
        lemma_exact_init(input, d, lp, already_merged@);
    }

    // iterate over each block in the layer
    let mut base_v: u32 = 0;
    while base_v < 32
        invariant
            input.wf(),
            dir.is_valid(),
            d == dir.0,
            dir_index == dir.0,
            lp == layer_pos,
            layer_pos < 32,
            base_v <= 32,
            vertices@.len() >= start,
            start == old_v.len(),
            vertices@.subrange(0, start) == old_v,
            cache_ok(input, d, lp, interpolated_light_cache@),
            layer_state(input, d, lp, vis0, visible@, already_merged@, 32 * base_v, vertices@.subrange(start, vertices@.len() as int)),
            layer_exact(input, d, lp, already_merged@, 32 * base_v, vertices@.subrange(start, vertices@.len() as int)),
        decreases 32 - base_v,
    {
        let mut base_u: u32 = 0;
        while base_u < 32
            invariant
                input.wf(),
                dir.is_valid(),
                d == dir.0,
                dir_index == dir.0,
                lp == layer_pos,
                layer_pos < 32,
                base_v < 32,
                base_u <= 32,
                vertices@.len() >= start,
                start == old_v.len(),
                vertices@.subrange(0, start) == old_v,
                cache_ok(input, d, lp, interpolated_light_cache@),
                layer_state(input, d, lp, vis0, visible@, already_merged@, 32 * base_v + base_u, vertices@.subrange(start, vertices@.len() as int)),
                layer_exact(input, d, lp, already_merged@, 32 * base_v + base_u, vertices@.subrange(start, vertices@.len() as int)),
            decreases 32 - base_u,
        {
            let ghost t = 32 * base_v + base_u;
            let ghost q_before = vertices@.subrange(start, vertices@.len() as int);
            // index of this block in the current layer
            let base_index = (32 * base_v + base_u) as usize;
            proof {
                assert(at(already_merged@, base_u as int, base_v as int) == already_merged@[base_index as int]);
                assert(at(visible@, base_u as int, base_v as int) == visible@[base_index as int]);
            }

            // skip if already merged
            if !already_merged[base_index] {
                // position of this block in the chunk
                let base_pos = rotate(dir_index, base_u, base_v, layer_pos);
                let base_id = input.blocks[uvec3_to_chunk_index(base_pos.0)];
                let base_model = get_block(base_id).model;
                let base_face = base_model.face(dir);
                let base_visible = visible[base_index];

                let cached = interpolated_light_cache[base_index];
                proof {
                    assert(at(interpolated_light_cache@, base_u as int, base_v as int) == cached);
                }
                let base_light_data = match cached {
                    Some(cached_light_data) => cached_light_data,
                    // no need to insert it into the cache because this face will never be
                    // considered as a merge candidate
                    None => interpolate_light_for_face(input, dir, base_pos),
                };

                // update `visible` for the next layer
                let ghost visible_before = visible@;
                visible.set(base_index, base_model.face(dir.opposite()).is_none());
                let ghost vis_a = visible@;
                let ghost merged_a = already_merged@;
                proof {
                    assert forall|u: int, v: int| 0 <= u < 32 && 0 <= v < 32 implies #[trigger] at(visible@, u, v)
                        == if 32 * v + u < t + 1 || at(already_merged@, u, v) {
                        !input.solid(layer_cell(d, u, v, lp))
                    } else {
                        at(vis0, u, v)
                    } by {
                        if 32 * v + u != t {
                            assert(at(visible@, u, v) == at(visible_before, u, v));
                        } else {
                            assert(u == base_u && v == base_v);
                        }
                    }
                }

                match base_face {
                    Some(face) => {
                        if base_visible {
                            proof {
                                assert(at(vis0, base_u as int, base_v as int) == visible_spec(input, d, lp, base_u as int, base_v as int));
                                assert(tables_before_quad(input, d, lp, vis0, merged_a, vis_a, t)) by {
                                    assert forall|u: int, v: int|
                                        0 <= u < 32 && 0 <= v < 32 && 32 * v + u > t && !at(merged_a, u, v) implies #[trigger] at(vis_a, u, v)
                                        == at(vis0, u, v) by {}
                                    assert forall|u: int, v: int|
                                        0 <= u < 32 && 0 <= v < 32 && #[trigger] at(merged_a, u, v) implies at(vis_a, u, v)
                                        == !input.solid(layer_cell(d, u, v, lp)) by {}
                                }
                                assert(rect_matches(input, d, lp, merged_a, base_u as int, base_v as int, 1, 1, face.texture_index, base_light_data)) by {
                                    assert forall|u: int, v: int|
                                        #![trigger layer_cell(d, u, v, lp)]
                                        in_rect(u, v, base_u as int, base_v as int, 1, 1) implies shown(input, d, lp, u, v)
                                        && texture_spec(input, d, layer_cell(d, u, v, lp)) == face.texture_index
                                        && face_light_spec(input, d, layer_cell(d, u, v, lp)) == base_light_data && (!(u
                                        == base_u && v == base_v) ==> !at(merged_a, u, v)) by {
                                        assert(u == base_u && v == base_v);
                                    }
                                }
                            }
                            // march to see how many faces can be merged in the U direction
                            let size_u = greedy_u_march(
                                input,
                                dir,
                                visible,
                                &mut already_merged,
                                &mut interpolated_light_cache,
                                layer_pos,
                                face,
                                base_light_data,
                                base_u,
                                base_v,
                                Ghost(vis0),
                            );
                            // march to see how many faces can be merged in the V direction
                            let size_v = greedy_v_march(
                                input,
                                dir,
                                visible,
                                &mut already_merged,
                                &mut interpolated_light_cache,
                                layer_pos,
                                face,
                                base_light_data,
                                base_u,
                                base_v,
                                size_u,
                                Ghost(vis0),
                                Ghost(merged_a),
                                Ghost(vis_a),
                            );

                            // create the merged face
                            let ghost vq = vertices@;
                            add_face(
                                vertices,
                                dir,
                                base_u,
                                base_v,
                                layer_pos,
                                size_u,
                                size_v,
                                face.texture_index,
                                base_light_data,
                            );
                            proof {
                                let u0 = base_u as int;
                                let v0 = base_v as int;
                                let su = size_u as int;
                                let sv = size_v as int;
                                let new = vertices@.subrange(start, vertices@.len() as int);
                                let q = new[new.len() - 1];
                                assert(new =~= q_before.push(q)) by {
                                    assert(vq.subrange(start, vq.len() as int) == q_before);
                                }
                                assert forall|k: int| 0 <= k < q_before.len() implies (#[trigger] q_before[k]).face.0 == d by {
                                    assert(quad_ok(input, d, q_before[k]));
                                }
                                if base_v + size_v != 32 {
                                    let uw = choose|u: int|
                                        base_u <= u < base_u + size_u && !#[trigger] can_join(input, d, lp, merged_a, u, base_v + size_v, face.texture_index, base_light_data);
                                    assert(!can_join(input, d, lp, merged_a, uw, q.v + q.size_v, q.texture_index, q.light));
                                }
                                lemma_exact_push(input, d, lp, merged_a, already_merged@, t, q_before, q);
                                assert(vertices@.subrange(0, start) =~= old_v) by {
                                    assert(vertices@.subrange(0, start) =~= vq.subrange(0, start));
                                }
                                assert(quad_ok(input, d, q)) by {
                                    assert forall|u: int, v: int|
                                        #![trigger layer_cell(d, u, v, q.layer as int)]
                                        covers(q, q.layer as int, u, v) implies shown(input, d, q.layer as int, u, v) && texture_spec(
                                        input,
                                        d,
                                        layer_cell(d, u, v, q.layer as int),
                                    ) == q.texture_index && face_light_spec(input, d, layer_cell(d, u, v, q.layer as int))
                                        == q.light by {
                                        assert(in_rect(u, v, u0, v0, su, sv));
                                    }
                                }
                                // the new quad lies on the corner and on newly merged cells
                                assert forall|u: int, v: int|
                                    0 <= u < 32 && 0 <= v < 32 && covers(q, lp, u, v) implies !(32 * v + u < t || at(merged_a, u, v)) by {
                                    assert(in_rect(u, v, u0, v0, su, sv));
                                }
                                assert(layer_state(input, d, lp, vis0, visible@, already_merged@, t + 1, new)) by {
                                    assert forall|u: int, v: int|
                                        0 <= u < 32 && 0 <= v < 32 implies #[trigger] at(visible@, u, v) == if 32 * v + u < t + 1 || at(
                                        already_merged@,
                                        u,
                                        v,
                                    ) {
                                        !input.solid(layer_cell(d, u, v, lp))
                                    } else {
                                        at(vis0, u, v)
                                    } by {}
                                    assert forall|k: int|
                                        0 <= k < new.len() implies quad_ok(input, d, #[trigger] new[k]) && new[k].layer == lp by {
                                        if k < new.len() - 1 {
                                            assert(new[k] == q_before[k]);
                                        }
                                    }
                                    assert forall|k: int, u: int, v: int|
                                        0 <= k < new.len() && 0 <= u < 32 && 0 <= v < 32 && #[trigger] covers(new[k], lp, u, v)
                                        implies 32 * v + u < t + 1 || at(already_merged@, u, v) by {
                                        if k < new.len() - 1 {
                                            assert(new[k] == q_before[k]);
                                        } else {
                                            assert(in_rect(u, v, u0, v0, su, sv));
                                        }
                                    }
                                    assert forall|u: int, v: int|
                                        0 <= u < 32 && 0 <= v < 32 && (32 * v + u < t + 1 || at(already_merged@, u, v)) && #[trigger] shown(
                                        input,
                                        d,
                                        lp,
                                        u,
                                        v,
                                    ) implies exists|k: int| 0 <= k < new.len() && #[trigger] covers(new[k], lp, u, v) by {
                                        if in_rect(u, v, u0, v0, su, sv) {
                                            assert(covers(new[new.len() - 1], lp, u, v));
                                        } else {
                                            assert(32 * v + u < t || at(merged_a, u, v));
                                            let k = choose|k: int| 0 <= k < q_before.len() && #[trigger] covers(q_before[k], lp, u, v);
                                            assert(new[k] == q_before[k]);
                                        }
                                    }
                                    assert forall|k1: int, k2: int, w: int, u: int, v: int|
                                        0 <= k1 < k2 < new.len() && #[trigger] covers(new[k1], w, u, v) implies !#[trigger] covers(
                                        new[k2],
                                        w,
                                        u,
                                        v,
                                    ) by {
                                        assert(new[k1] == q_before[k1]);
                                        if k2 < new.len() - 1 {
                                            assert(new[k2] == q_before[k2]);
                                        } else if covers(new[k2], w, u, v) {
                                            assert(in_rect(u, v, u0, v0, su, sv));
                                            assert(covers(q_before[k1], lp, u, v));
                                        }
                                    }
                                }
                            }
                        } else {
                            proof {
                                lemma_exact_skip(input, d, lp, already_merged@, t, q_before);
                                assert(layer_state(input, d, lp, vis0, visible@, already_merged@, t + 1, q_before)) by {
                                    assert forall|k: int, u: int, v: int|
                                        0 <= k < q_before.len() && 0 <= u < 32 && 0 <= v < 32 && #[trigger] covers(q_before[k], lp, u, v)
                                        implies 32 * v + u < t + 1 || at(already_merged@, u, v) by {}
                                    assert(!shown(input, d, lp, base_u as int, base_v as int));
                                }
                            }
                        }
                    },
                    None => {
                        proof {
                            lemma_exact_skip(input, d, lp, already_merged@, t, q_before);
                                assert(layer_state(input, d, lp, vis0, visible@, already_merged@, t + 1, q_before)) by {
                                assert forall|k: int, u: int, v: int|
                                    0 <= k < q_before.len() && 0 <= u < 32 && 0 <= v < 32 && #[trigger] covers(q_before[k], lp, u, v)
                                    implies 32 * v + u < t + 1 || at(already_merged@, u, v) by {}
                                assert(!shown(input, d, lp, base_u as int, base_v as int));
                            }
                        }
                    },
                }
            } else {
                proof {
                    lemma_exact_skip(input, d, lp, already_merged@, t, q_before);
                                assert(layer_state(input, d, lp, vis0, visible@, already_merged@, t + 1, q_before)) by {
                        assert forall|u: int, v: int|
                            0 <= u < 32 && 0 <= v < 32 implies #[trigger] at(visible@, u, v) == if 32 * v + u < t + 1 || at(
                            already_merged@,
                            u,
                            v,
                        ) {
                            !input.solid(layer_cell(d, u, v, lp))
                        } else {
                            at(vis0, u, v)
                        } by {}
                        assert forall|k: int, u: int, v: int|
                            0 <= k < q_before.len() && 0 <= u < 32 && 0 <= v < 32 && #[trigger] covers(q_before[k], lp, u, v)
                            implies 32 * v + u < t + 1 || at(already_merged@, u, v) by {}
                    }
                }
            }
            base_u = base_u + 1;
        }
        base_v = base_v + 1;
    }
    proof {
        lemma_exact_done(input, d, lp, already_merged@, 32 * base_v, vertices@.subrange(start, vertices@.len() as int));
    }
}

/// The visibility of the first layer meshed in direction `dir`: what the neighbouring
/// chunk's side leaves open.
fn first_layer_visibility(input: ChunkMeshInput, dir: FaceIndex) -> (r: Vec<bool>)
    requires
        input.wf(),
        dir.is_valid(),
    ensures
        r@.len() == 1024,
        forall|u: int, v: int|
            0 <= u < 32 && 0 <= v < 32 ==> #[trigger] at(r@, u, v) == side_open(input, dir.0 as int, 32 * v + u),
{
    match &input.surrounding_sides_faces[dir.as_usize()] {
        Some(side) => side.faces.clone(),
        None => {
            let mut all: Vec<bool> = Vec::new();
            while all.len() < 1024
                invariant
                    all@.len() <= 1024,
                    forall|i: int| 0 <= i < all@.len() ==> #[trigger] all@[i],
                decreases 1024 - all@.len(),
            {
                all.push(true);
            }
            all
        },
    }
}

/// Greedily merge visible faces with the given direction and add them to the mesh
pub fn add_greedy_merged_faces(vertices: &mut Vec<MeshQuad>, input: ChunkMeshInput, dir: FaceIndex)
    requires
        input.wf(),
        dir.is_valid(),
    ensures
        final(vertices)@.len() >= old(vertices)@.len(),
        final(vertices)@.subrange(0, old(vertices)@.len() as int) == old(vertices)@,
        is_mesh_of(input, dir.0 as int, final(vertices)@.subrange(old(vertices)@.len() as int, final(vertices)@.len() as int)),
        greedy_made(input, final(vertices)@.subrange(old(vertices)@.len() as int, final(vertices)@.len() as int)),
{
    // this will track whether each face in the next layer is visible
    // a face is visible if the block in the previous layer had no face in
    // the opposite direction
    let ghost d = dir.0 as int;
    let ghost start = vertices@.len() as int;
    let ghost old_v = vertices@;
    let negative = dir.as_usize() >= 3;
    let mut visible = first_layer_visibility(input, dir);
    proof {
        assert(vertices@.subrange(start, vertices@.len() as int) =~= Seq::<MeshQuad>::empty());
    }

    // iterate over each layer of faces we will create
    let mut layer_index: u32 = 0;
    while layer_index < 32
        invariant
            input.wf(),
            dir.is_valid(),
            d == dir.0,
            negative == negative_spec(d),
            layer_index <= 32,
            visible@.len() == 1024,
            layer_index < 32 ==> forall|u: int, v: int|
                0 <= u < 32 && 0 <= v < 32 ==> #[trigger] at(visible@, u, v) == visible_spec(
                    input,
                    d,
                    if negative { layer_index as int } else { 31 - layer_index },
                    u,
                    v,
                ),
            vertices@.len() >= start,
            start == old_v.len(),
            vertices@.subrange(0, start) == old_v,
            ({
                let new = vertices@.subrange(start, vertices@.len() as int);
                &&& forall|k: int|
                    0 <= k < new.len() ==> quad_ok(input, d, #[trigger] new[k]) && (if negative {
                        new[k].layer < layer_index
                    } else {
                        new[k].layer > 31 - layer_index
                    })
                &&& forall|w: int, u: int, v: int|
                    0 <= w < 32 && 0 <= u < 32 && 0 <= v < 32 && (if negative { w < layer_index } else { w > 31 - layer_index })
                        && #[trigger] shown(input, d, w, u, v) ==> exists|k: int| 0 <= k < new.len() && #[trigger] covers(new[k], w, u, v)
                &&& forall|k1: int, k2: int, w: int, u: int, v: int|
                    0 <= k1 < k2 < new.len() && #[trigger] covers(new[k1], w, u, v) ==> !#[trigger] covers(new[k2], w, u, v)
                &&& greedy_made(input, new)
                &&& forall|k: int| 0 <= k < new.len() ==> greedy_key(#[trigger] new[k]) < 32768 * d + 1024 * layer_index
            }),
        decreases 32 - layer_index,
    {
        // position of this layer, moving backwards through the chunk with respect to the face
        // direction
        let layer_pos = if negative { layer_index } else { 31 - layer_index };
        let ghost before = vertices@;
        let ghost q_before = vertices@.subrange(start, vertices@.len() as int);
        greedy_layer(vertices, input, dir, layer_pos, &mut visible);
        proof {
            let lp = layer_pos as int;
            let mid = before.len() as int;
            let new = vertices@.subrange(start, vertices@.len() as int);
            let layer_new = vertices@.subrange(mid, vertices@.len() as int);
            assert(vertices@.subrange(0, start) =~= old_v) by {
                assert(vertices@.subrange(0, start) =~= vertices@.subrange(0, mid).subrange(0, start));
            }
            assert(new =~= q_before + layer_new) by {
                assert(vertices@.subrange(0, mid) == before);
            }
            assert forall|k: int| 0 <= k < new.len() implies quad_ok(input, d, #[trigger] new[k]) && (if negative {
                new[k].layer < layer_index + 1
            } else {
                new[k].layer > 31 - (layer_index + 1)
            }) by {
                if k < q_before.len() {
                    assert(new[k] == q_before[k]);
                } else {
                    assert(new[k] == layer_new[k - q_before.len()]);
                }
            }
            assert forall|w: int, u: int, v: int|
                0 <= w < 32 && 0 <= u < 32 && 0 <= v < 32 && (if negative { w < layer_index + 1 } else { w > 31 - (layer_index + 1) })
                    && #[trigger] shown(input, d, w, u, v) implies exists|k: int| 0 <= k < new.len() && #[trigger] covers(new[k], w, u, v) by {
                if w == lp {
                    let k = choose|k: int| 0 <= k < layer_new.len() && #[trigger] covers(layer_new[k], lp, u, v);
                    assert(new[q_before.len() + k] == layer_new[k]);
                } else {
                    let k = choose|k: int| 0 <= k < q_before.len() && #[trigger] covers(q_before[k], w, u, v);
                    assert(new[k] == q_before[k]);
                }
            }
            assert forall|k1: int, k2: int, w: int, u: int, v: int|
                0 <= k1 < k2 < new.len() && #[trigger] covers(new[k1], w, u, v) implies !#[trigger] covers(new[k2], w, u, v) by {
                if k2 < q_before.len() {
                    assert(new[k1] == q_before[k1] && new[k2] == q_before[k2]);
                } else if k1 >= q_before.len() {
                    assert(new[k1] == layer_new[k1 - q_before.len()] && new[k2] == layer_new[k2 - q_before.len()]);
                } else {
                    assert(new[k1] == q_before[k1] && new[k2] == layer_new[k2 - q_before.len()]);
                }
            }
            assert(greedy_made(input, layer_new)) by {
                assert forall|k1: int, k2: int| 0 <= k1 < k2 < layer_new.len() implies greedy_key(#[trigger] layer_new[k1]) < greedy_key(
                #[trigger] layer_new[k2]) by {
                    assert(quad_ok(input, d, layer_new[k1]) && quad_ok(input, d, layer_new[k2]));
                    assert(32 * layer_new[k1].v + layer_new[k1].u < 32 * layer_new[k2].v + layer_new[k2].u);
                }
            }
            assert forall|i: int, j: int| 0 <= i < q_before.len() && 0 <= j < layer_new.len() implies !((#[trigger] q_before[i]).face
                == (#[trigger] layer_new[j]).face && q_before[i].layer == layer_new[j].layer) by {
                assert(q_before[i] == new[i]);
                assert(quad_ok(input, d, new[i]));
            }
            assert forall|i: int, j: int| 0 <= i < q_before.len() && 0 <= j < layer_new.len() implies greedy_key(#[trigger] q_before[i])
                < greedy_key(#[trigger] layer_new[j]) by {
                assert(q_before[i] == new[i]);
                assert(quad_ok(input, d, layer_new[j]));
            }
            lemma_greedy_concat(input, q_before, layer_new);
            assert forall|k: int| 0 <= k < new.len() implies greedy_key(#[trigger] new[k]) < 32768 * d + 1024 * (layer_index + 1) by {
                if k < q_before.len() {
                    assert(new[k] == q_before[k]);
                } else {
                    assert(new[k] == layer_new[k - q_before.len()]);
                    assert(quad_ok(input, d, layer_new[k - q_before.len()]));
                }
            }
            if layer_index + 1 < 32 {
                let next: int = if negative { layer_index + 1 } else { 31 - (layer_index + 1) };
                assert forall|u: int, v: int| 0 <= u < 32 && 0 <= v < 32 implies #[trigger] at(visible@, u, v) == visible_spec(
                    input,
                    d,
                    next,
                    u,
                    v,
                ) by {
                    assert(layer_cell(d, u, v, if negative { next - 1 } else { next + 1 }) == layer_cell(d, u, v, lp));
                }
            }
        }
        layer_index = layer_index + 1;
    }
}

/// `quads` draw exactly the shown faces of the chunk in every direction, each once.
pub open spec fn is_chunk_mesh(input: ChunkMeshInput, quads: Seq<MeshQuad>) -> bool {
    &&& forall|k: int| 0 <= k < quads.len() ==> quads[k].face.is_valid() && quad_ok(input, quads[k].face.0 as int, #[trigger] quads[k])
    &&& forall|d: int, w: int, u: int, v: int|
        0 <= d < 6 && 0 <= w < 32 && 0 <= u < 32 && 0 <= v < 32 && #[trigger] shown(input, d, w, u, v) ==> exists|k: int|
            0 <= k < quads.len() && quads[k].face.0 == d && #[trigger] covers(quads[k], w, u, v)
    &&& forall|k1: int, k2: int, w: int, u: int, v: int|
        0 <= k1 < k2 < quads.len() && quads[k1].face == quads[k2].face && #[trigger] covers(quads[k1], w, u, v) ==> !#[trigger] covers(
            quads[k2],
            w,
            u,
            v,
        )
}

/// Quad `j` of `culled` covers the face that quad `k` of `quads` starts at.
spec fn same_origin(culled: Seq<MeshQuad>, quads: Seq<MeshQuad>, k: int, j: int) -> bool {
    0 <= j < culled.len() && culled[j].face.0 == quads[k].face.0 && covers(
        culled[j],
        quads[k].layer as int,
        quads[k].u as int,
        quads[k].v as int,
    )
}

/// The quad of `culled` that covers the face quad `k` of `quads` starts at.
spec fn origin_match(culled: Seq<MeshQuad>, quads: Seq<MeshQuad>, k: int) -> int {
    choose|j: int| same_origin(culled, quads, k, j)
}

/// Merging never adds quads: a mesh of a chunk has no more quads than a mesh of the
/// same chunk made of single faces, since each quad draws a face of its own and no
/// face is drawn twice.
pub proof fn lemma_merged_mesh_no_larger(input: ChunkMeshInput, quads: Seq<MeshQuad>, culled: Seq<MeshQuad>)
    requires
        is_chunk_mesh(input, quads),
        is_chunk_mesh(input, culled),
        forall|k: int| 0 <= k < culled.len() ==> (#[trigger] culled[k]).size_u == 1 && culled[k].size_v == 1,
    ensures
        quads.len() <= culled.len(),
{
    let h = |k: int| origin_match(culled, quads, k);
    let x = vstd::set_lib::set_int_range(0, quads.len() as int);
    let y = vstd::set_lib::set_int_range(0, culled.len() as int);
    assert forall|k: int| 0 <= k < quads.len() implies same_origin(culled, quads, k, #[trigger] origin_match(culled, quads, k)) by {
        let q = quads[k];
        let d = q.face.0 as int;
        assert(quad_ok(input, d, q));
        assert(covers(q, q.layer as int, q.u as int, q.v as int));
        // the quad's first face is one it draws
        assert(shown(input, d, q.layer as int, q.u as int, q.v as int)) by {
            let first = layer_cell(d, q.u as int, q.v as int, q.layer as int);
        }
        let j = choose|j: int| 0 <= j < culled.len() && culled[j].face.0 == d && #[trigger] covers(culled[j], q.layer as int, q.u as int, q.v as int);
        assert(same_origin(culled, quads, k, j));
    }
    assert(vstd::relations::injective_on(h, x)) by {
        assert forall|k1: int, k2: int| x.contains(k1) && x.contains(k2) && #[trigger] h(k1) == #[trigger] h(k2) implies k1 == k2 by {
            let j = h(k1);
            assert(same_origin(culled, quads, k1, origin_match(culled, quads, k1)));
            assert(same_origin(culled, quads, k2, origin_match(culled, quads, k2)));
            assert(covers(culled[j], quads[k1].layer as int, quads[k1].u as int, quads[k1].v as int));
            assert(covers(culled[j], quads[k2].layer as int, quads[k2].u as int, quads[k2].v as int));
            assert(quads[k1].face == quads[k2].face);
            assert(covers(quads[k1], quads[k2].layer as int, quads[k2].u as int, quads[k2].v as int));
            assert(covers(quads[k2], quads[k2].layer as int, quads[k2].u as int, quads[k2].v as int));
            if k1 < k2 {
                assert(!covers(quads[k2], quads[k2].layer as int, quads[k2].u as int, quads[k2].v as int));
            } else if k2 < k1 {
                assert(!covers(quads[k1], quads[k2].layer as int, quads[k2].u as int, quads[k2].v as int));
            }
        }
    }
    vstd::set_lib::lemma_int_range(0, quads.len() as int);
    vstd::set_lib::lemma_int_range(0, culled.len() as int);
    vstd::set_lib::lemma_map_size(x, x.map(h), h);
    assert(x.map(h).subset_of(y));
    vstd::set_lib::lemma_len_subset(x.map(h), y);
}

/// Appending a mesh of one more direction to a mesh of the earlier directions.
proof fn lemma_append_direction(input: ChunkMeshInput, prev: Seq<MeshQuad>, part: Seq<MeshQuad>, d: int)
    requires
        0 <= d < 6,
        forall|k: int| 0 <= k < prev.len() ==> (#[trigger] prev[k]).face.0 < d && prev[k].face.is_valid() && quad_ok(input, prev[k].face.0 as int, prev[k]),
        forall|dd: int, w: int, u: int, v: int|
            0 <= dd < d && 0 <= w < 32 && 0 <= u < 32 && 0 <= v < 32 && #[trigger] shown(input, dd, w, u, v) ==> exists|k: int|
                0 <= k < prev.len() && prev[k].face.0 == dd && #[trigger] covers(prev[k], w, u, v),
        forall|k1: int, k2: int, w: int, u: int, v: int|
            0 <= k1 < k2 < prev.len() && prev[k1].face == prev[k2].face && #[trigger] covers(prev[k1], w, u, v) ==> !#[trigger] covers(
                prev[k2],
                w,
                u,
                v,
            ),
        is_mesh_of(input, d, part),
    ensures
        ({
            let all = prev + part;
            &&& forall|k: int| 0 <= k < all.len() ==> (#[trigger] all[k]).face.0 < d + 1 && all[k].face.is_valid() && quad_ok(input, all[k].face.0 as int, all[k])
            &&& forall|dd: int, w: int, u: int, v: int|
                0 <= dd < d + 1 && 0 <= w < 32 && 0 <= u < 32 && 0 <= v < 32 && #[trigger] shown(input, dd, w, u, v) ==> exists|k: int|
                    0 <= k < all.len() && all[k].face.0 == dd && #[trigger] covers(all[k], w, u, v)
            &&& forall|k1: int, k2: int, w: int, u: int, v: int|
                0 <= k1 < k2 < all.len() && all[k1].face == all[k2].face && #[trigger] covers(all[k1], w, u, v) ==> !#[trigger] covers(
                    all[k2],
                    w,
                    u,
                    v,
                )
        }),
{
    let all = prev + part;
    let n = prev.len();
    assert forall|k: int| 0 <= k < all.len() implies (#[trigger] all[k]).face.0 < d + 1 && all[k].face.is_valid() && quad_ok(input, all[k].face.0 as int, all[k]) by {
        if k >= n {
            assert(all[k] == part[k - n]);
            assert(quad_ok(input, d, part[k - n]));
        }
    }
    assert forall|dd: int, w: int, u: int, v: int|
        0 <= dd < d + 1 && 0 <= w < 32 && 0 <= u < 32 && 0 <= v < 32 && #[trigger] shown(input, dd, w, u, v) implies exists|k: int|
        0 <= k < all.len() && all[k].face.0 == dd && #[trigger] covers(all[k], w, u, v) by {
        if dd < d {
            let k = choose|k: int| 0 <= k < prev.len() && prev[k].face.0 == dd && #[trigger] covers(prev[k], w, u, v);
            assert(all[k] == prev[k]);
        } else {
            let k = choose|k: int| 0 <= k < part.len() && #[trigger] covers(part[k], w, u, v);
            assert(all[n + k] == part[k]);
            assert(quad_ok(input, d, part[k]));
        }
    }
    assert forall|k1: int, k2: int, w: int, u: int, v: int|
        0 <= k1 < k2 < all.len() && all[k1].face == all[k2].face && #[trigger] covers(all[k1], w, u, v) implies !#[trigger] covers(
        all[k2],
        w,
        u,
        v,
    ) by {
        if k2 < n {
            assert(all[k1] == prev[k1] && all[k2] == prev[k2]);
        } else if k1 >= n {
            assert(all[k1] == part[k1 - n] && all[k2] == part[k2 - n]);
        } else {
            assert(all[k1] == prev[k1] && all[k2] == part[k2 - n]);
            assert(quad_ok(input, d, part[k2 - n]));
        }
    }
}

/// Creates the quads for a chunk mesh where faces inside the volume are skipped but no
/// faces are merged.
/// Compared to `mesh_greedy`, meshing is much faster but the resulting meshes
/// are more complex and therefore slower to render
pub fn mesh_culled(input: ChunkMeshInput) -> (r: Vec<MeshQuad>)
    requires
        input.wf(),
    ensures
        is_chunk_mesh(input, r@),
        forall|k: int| 0 <= k < r@.len() ==> (#[trigger] r@[k]).size_u == 1 && r@[k].size_v == 1,
        forall|k1: int, k2: int| 0 <= k1 < k2 < r@.len() ==> culled_order(#[trigger] r@[k1]) < culled_order(#[trigger] r@[k2]),
{
    let mut vertices: Vec<MeshQuad> = Vec::new();
    let mut d: usize = 0;
    while d < 6
        invariant
            input.wf(),
            d <= 6,
            forall|k: int| 0 <= k < vertices@.len() ==> (#[trigger] vertices@[k]).face.0 < d && vertices@[k].face.is_valid() && quad_ok(input, vertices@[k].face.0 as int, vertices@[k]),
            forall|dd: int, w: int, u: int, v: int|
                0 <= dd < d && 0 <= w < 32 && 0 <= u < 32 && 0 <= v < 32 && #[trigger] shown(input, dd, w, u, v) ==> exists|k: int|
                    0 <= k < vertices@.len() && vertices@[k].face.0 == dd && #[trigger] covers(vertices@[k], w, u, v),
            forall|k1: int, k2: int, w: int, u: int, v: int|
                0 <= k1 < k2 < vertices@.len() && vertices@[k1].face == vertices@[k2].face && #[trigger] covers(vertices@[k1], w, u, v) ==> !#[trigger] covers(
                    vertices@[k2],
                    w,
                    u,
                    v,
                ),
            forall|k: int| 0 <= k < vertices@.len() ==> (#[trigger] vertices@[k]).size_u == 1 && vertices@[k].size_v == 1,
            forall|k1: int, k2: int|
                0 <= k1 < k2 < vertices@.len() ==> culled_order(#[trigger] vertices@[k1]) < culled_order(#[trigger] vertices@[k2]),
            forall|k: int| 0 <= k < vertices@.len() ==> culled_order(#[trigger] vertices@[k]) < 32768 * d,
        decreases 6 - d,
    {
        let ghost prev = vertices@;
        add_visible_faces(&mut vertices, input, FaceIndex(d));
        proof {
            let part = vertices@.subrange(prev.len() as int, vertices@.len() as int);
            assert(vertices@ =~= prev + part);
            lemma_append_direction(input, prev, part, d as int);
            assert forall|k: int| 0 <= k < vertices@.len() implies (#[trigger] vertices@[k]).size_u == 1 && vertices@[k].size_v == 1 by {
                if k >= prev.len() {
                    assert(vertices@[k] == part[k - prev.len()]);
                }
            }
            assert forall|k: int| prev.len() <= k < vertices@.len() implies 32768 * d <= culled_order(#[trigger] vertices@[k])
                < 32768 * (d + 1) by {
                assert(vertices@[k] == part[k - prev.len()]);
                assert(quad_ok(input, d as int, part[k - prev.len()]));
            }
            assert forall|k1: int, k2: int| 0 <= k1 < k2 < vertices@.len() implies culled_order(#[trigger] vertices@[k1])
                < culled_order(#[trigger] vertices@[k2]) by {
                if k1 >= prev.len() {
                    assert(vertices@[k1].face.0 == d && vertices@[k2].face.0 == d) by {
                        assert(vertices@[k1] == part[k1 - prev.len()]);
                        assert(vertices@[k2] == part[k2 - prev.len()]);
                        assert(quad_ok(input, d as int, part[k1 - prev.len()]));
                        assert(quad_ok(input, d as int, part[k2 - prev.len()]));
                    }
                } else if k2 < prev.len() {
                    assert(vertices@[k1] == prev[k1] && vertices@[k2] == prev[k2]);
                }
            }
        }
        d = d + 1;
    }
    vertices
}

/// Creates the quads for a chunk mesh where faces inside the volume are skipped and
/// compatible faces are merged greedily.
/// Compared to `culled`, meshing is much slower but the resulting meshes
/// are simpler and therefore faster to render
pub fn mesh_greedy(input: ChunkMeshInput) -> (r: Vec<MeshQuad>)
    requires
        input.wf(),
    ensures
        is_chunk_mesh(input, r@),
        greedy_made(input, r@),
{
    let mut vertices: Vec<MeshQuad> = Vec::new();
    let mut d: usize = 0;
    while d < 6
        invariant
            input.wf(),
            d <= 6,
            forall|k: int| 0 <= k < vertices@.len() ==> (#[trigger] vertices@[k]).face.0 < d && vertices@[k].face.is_valid() && quad_ok(input, vertices@[k].face.0 as int, vertices@[k]),
            forall|dd: int, w: int, u: int, v: int|
                0 <= dd < d && 0 <= w < 32 && 0 <= u < 32 && 0 <= v < 32 && #[trigger] shown(input, dd, w, u, v) ==> exists|k: int|
                    0 <= k < vertices@.len() && vertices@[k].face.0 == dd && #[trigger] covers(vertices@[k], w, u, v),
            forall|k1: int, k2: int, w: int, u: int, v: int|
                0 <= k1 < k2 < vertices@.len() && vertices@[k1].face == vertices@[k2].face && #[trigger] covers(vertices@[k1], w, u, v) ==> !#[trigger] covers(
                    vertices@[k2],
                    w,
                    u,
                    v,
                ),
            greedy_made(input, vertices@),
            forall|k: int| 0 <= k < vertices@.len() ==> greedy_key(#[trigger] vertices@[k]) < 32768 * d,
        decreases 6 - d,
    {
        let ghost prev = vertices@;
        add_greedy_merged_faces(&mut vertices, input, FaceIndex(d));
        proof {
            let part = vertices@.subrange(prev.len() as int, vertices@.len() as int);
            assert(vertices@ =~= prev + part);
            lemma_append_direction(input, prev, part, d as int);
            assert forall|i: int, j: int| 0 <= i < prev.len() && 0 <= j < part.len() implies !((#[trigger] prev[i]).face
                == (#[trigger] part[j]).face && prev[i].layer == part[j].layer) by {
                assert(quad_ok(input, d as int, part[j]));
            }
            assert forall|i: int, j: int| 0 <= i < prev.len() && 0 <= j < part.len() implies greedy_key(#[trigger] prev[i])
                < greedy_key(#[trigger] part[j]) by {
                assert(quad_ok(input, d as int, part[j]));
            }
            lemma_greedy_concat(input, prev, part);
            assert forall|k: int| 0 <= k < vertices@.len() implies greedy_key(#[trigger] vertices@[k]) < 32768 * (d + 1) by {
                if k < prev.len() {
                    assert(vertices@[k] == prev[k]);
                } else {
                    assert(vertices@[k] == part[k - prev.len()]);
                    assert(quad_ok(input, d as int, part[k - prev.len()]));
                }
            }
        }
        d = d + 1;
    }
    vertices
}

/// Information about each face direction needed for meshing
pub trait FaceDir {
    /// `FaceIndex` matching this face direction
    spec fn face_index_spec() -> int;

    /// `FaceIndex` matching this face direction
    fn face_index() -> (r: FaceIndex)
        ensures
            r.0 == Self::face_index_spec(),
            r.is_valid(),
    ;
}

/// +x
pub struct PosX;

/// +y
pub struct PosY;

/// +z
pub struct PosZ;

/// -x
pub struct NegX;

/// -y
pub struct NegY;

/// -z
pub struct NegZ;

impl FaceDir for PosX {
    open spec fn face_index_spec() -> int {
        0
    }

    fn face_index() -> (r: FaceIndex) {
        FaceIndex::pos_x()
    }
}

impl FaceDir for PosY {
    open spec fn face_index_spec() -> int {
        1
    }

    fn face_index() -> (r: FaceIndex) {
        FaceIndex::pos_y()
    }
}

impl FaceDir for PosZ {
    open spec fn face_index_spec() -> int {
        2
    }

    fn face_index() -> (r: FaceIndex) {
        FaceIndex::pos_z()
    }
}

impl FaceDir for NegX {
    open spec fn face_index_spec() -> int {
        3
    }

    fn face_index() -> (r: FaceIndex) {
        FaceIndex::neg_x()
    }
}

impl FaceDir for NegY {
    open spec fn face_index_spec() -> int {
        4
    }

    fn face_index() -> (r: FaceIndex) {
        FaceIndex::neg_y()
    }
}

impl FaceDir for NegZ {
    open spec fn face_index_spec() -> int {
        5
    }

    fn face_index() -> (r: FaceIndex) {
        FaceIndex::neg_z()
    }
}

} // verus!
