//! Positions of blocks within a chunk, of blocks in the world and of chunks.

use crate::terrain::chunk::{CHUNK_SIZE_CUBED, CHUNK_SIZE_I32};
use crate::util::vector::{IVec3, UVec3};
use vstd::prelude::*;

verus! {

/// Array index of the block with coordinates `(x, y, z)` in a chunk's block array.
pub open spec fn array_index_spec(x: int, y: int, z: int) -> int {
    1024 * z + 32 * y + x
}

/// Euclidean remainder of `v` by the chunk size: the coordinate within a chunk.
pub open spec fn local_coord_spec(v: int) -> int {
    v % 32
}

/// Euclidean quotient of `v` by the chunk size: the coordinate of the containing chunk.
pub open spec fn chunk_coord_spec(v: int) -> int {
    v / 32
}

/// Position of a block in a chunk
#[derive(Clone, Copy, Debug, PartialEq, Eq, Hash, Structural)]
pub struct LocalBlockPosition(pub UVec3);

impl LocalBlockPosition {
    /// True if the position lies inside a chunk.
    pub open spec fn is_valid(self) -> bool {
        self.0.x < 32 && self.0.y < 32 && self.0.z < 32
    }

    /// Index of this position in a chunk's block array.
    pub open spec fn index(self) -> int {
        array_index_spec(self.0.x as int, self.0.y as int, self.0.z as int)
    }

    /// The position `(0, 0, 0)` (`LocalBlockPosition::ZERO`).
    pub fn zero() -> (r: Self)
        ensures
            r.0.x == 0 && r.0.y == 0 && r.0.z == 0,
    {
        LocalBlockPosition(UVec3 { x: 0, y: 0, z: 0 })
    }

    /// Creates a position from its three coordinates.
    pub fn new(x: u32, y: u32, z: u32) -> (r: Self)
        ensures
            r.0.x == x && r.0.y == y && r.0.z == z,
    {
        LocalBlockPosition(UVec3 { x, y, z })
    }

    /// The position whose array index is the low 15 bits of `block_index`.
    pub fn from_array_index(block_index: usize) -> (r: Self)
        ensures
            r.is_valid(),
            r.0.x == block_index % 32,
            r.0.y == (block_index / 32) % 32,
            r.0.z == (block_index / 1024) % 32,
            block_index < CHUNK_SIZE_CUBED ==> r.index() == block_index,
    {
        let x = (block_index & 31) as u32;
        let y = ((block_index >> 5) & 31) as u32;
        let z = ((block_index >> 10) & 31) as u32;
        proof {
            assert(block_index & 31 == block_index % 32 && (block_index >> 5) & 31 == (block_index
                / 32) % 32 && (block_index >> 10) & 31 == (block_index / 1024) % 32 && block_index
                & 31 < 32 && (block_index >> 5) & 31 < 32 && (block_index >> 10) & 31 < 32)
                by (bit_vector);
        }
        LocalBlockPosition(UVec3 { x, y, z })
    }

    /// The position of a world block within its chunk.
    pub fn from_global_pos(global_pos: GlobalBlockPosition) -> (r: Self)
        ensures
            r.is_valid(),
            r.0.x == local_coord_spec(global_pos.0.x as int),
            r.0.y == local_coord_spec(global_pos.0.y as int),
            r.0.z == local_coord_spec(global_pos.0.z as int),
    {
        let g = global_pos.0;
        LocalBlockPosition(UVec3 { x: mask_i32(g.x), y: mask_i32(g.y), z: mask_i32(g.z) })
    }

    /// Index of this position in a chunk's block array.
    pub fn get_array_index(&self) -> (r: usize)
        requires
            self.index() <= u32::MAX,
        ensures
            r == self.index(),
    {
        (1024 * self.0.z + 32 * self.0.y + self.0.x) as usize
    }

    /// The coordinates as an unsigned vector.
    pub fn as_uvec3(&self) -> (r: UVec3)
        ensures
            r == self.0,
    {
        self.0
    }

    /// The coordinates as a signed vector.
    pub fn as_ivec3(&self) -> (r: IVec3)
        requires
            self.is_valid(),
        ensures
            r.x == self.0.x && r.y == self.0.y && r.z == self.0.z,
    {
        IVec3 { x: self.0.x as i32, y: self.0.y as i32, z: self.0.z as i32 }
    }

    /// If `self.0 + other` is a local block position, return it.
    /// Otherwise, return None
    pub fn try_add(&self, other: IVec3) -> (r: Option<LocalBlockPosition>)
        requires
            self.is_valid(),
            i32::MIN <= other.x + self.0.x <= i32::MAX,
            i32::MIN <= other.y + self.0.y <= i32::MAX,
            i32::MIN <= other.z + self.0.z <= i32::MAX,
        ensures
            r is Some <==> (0 <= self.0.x + other.x < 32 && 0 <= self.0.y + other.y < 32 && 0
                <= self.0.z + other.z < 32),
            r matches Some(p) ==> p.is_valid() && p.0.x == self.0.x + other.x && p.0.y == self.0.y
                + other.y && p.0.z == self.0.z + other.z,
    {
        let sx = self.0.x as i32 + other.x;
        let sy = self.0.y as i32 + other.y;
        let sz = self.0.z as i32 + other.z;
        let not_underflow = sx >= 0 && sy >= 0 && sz >= 0;
        let not_overflow = sx < CHUNK_SIZE_I32 && sy < CHUNK_SIZE_I32 && sz < CHUNK_SIZE_I32;
        if not_underflow && not_overflow {
            Some(LocalBlockPosition(UVec3 { x: sx as u32, y: sy as u32, z: sz as u32 }))
        } else {
            None
        }
    }

    /// `self + other`, each coordinate wrapped into the chunk: the position in the
    /// neighbouring chunk when the sum leaves this one.
    pub fn wrapping_add(&self, other: IVec3) -> (r: LocalBlockPosition)
        requires
            self.is_valid(),
            i32::MIN <= other.x + self.0.x <= i32::MAX,
            i32::MIN <= other.y + self.0.y <= i32::MAX,
            i32::MIN <= other.z + self.0.z <= i32::MAX,
        ensures
            r.is_valid(),
            r.0.x == local_coord_spec(self.0.x + other.x),
            r.0.y == local_coord_spec(self.0.y + other.y),
            r.0.z == local_coord_spec(self.0.z + other.z),
    {
        let sx = self.0.x as i32 + other.x;
        let sy = self.0.y as i32 + other.y;
        let sz = self.0.z as i32 + other.z;
        LocalBlockPosition(UVec3 { x: mask_i32(sx), y: mask_i32(sy), z: mask_i32(sz) })
    }
}

/// `v & (CHUNK_SIZE - 1)` as an unsigned coordinate: the Euclidean remainder by 32.
fn mask_i32(v: i32) -> (r: u32)
    ensures
        r < 32,
        r == local_coord_spec(v as int),
{
    let m = v & (CHUNK_SIZE_I32 - 1);
    proof {
        lemma_mask_shift_i32(v);
    }
    m as u32
}

/// The low five bits and the arithmetic shift by five of an `i32` are its Euclidean
/// remainder and quotient by 32.
pub proof fn lemma_mask_shift_i32(v: i32)
    ensures
        0 <= (v & 31) < 32,
        (v & 31) == v % 32,
        (v >> 5i32) == v / 32,
{
    assert(0 <= (v & 31) < 32 && (v >> 5i32) * 32 + (v & 31) == v) by (bit_vector);
    assert(v == 32 * (v / 32) + v % 32);
    assert((v & 31) == v % 32 && (v >> 5i32) == v / 32) by {
        vstd::arithmetic::div_mod::lemma_fundamental_div_mod_converse(
            v as int,
            32,
            (v >> 5i32) as int,
            (v & 31) as int,
        );
    }
}

/// Position of a block in the world
#[derive(Clone, Copy, Debug, PartialEq, Eq, Hash, Structural)]
pub struct GlobalBlockPosition(pub IVec3);

impl GlobalBlockPosition {
    /// The position `(0, 0, 0)` (`GlobalBlockPosition::ZERO`).
    pub fn zero() -> (r: Self)
        ensures
            r.0.x == 0 && r.0.y == 0 && r.0.z == 0,
    {
        GlobalBlockPosition(IVec3 { x: 0, y: 0, z: 0 })
    }

    /// Creates a position from its three coordinates.
    pub fn new(x: i32, y: i32, z: i32) -> (r: Self)
        ensures
            r.0.x == x && r.0.y == y && r.0.z == z,
    {
        GlobalBlockPosition(IVec3 { x, y, z })
    }

    /// The world position of the block at `local_pos` in the chunk at `chunk_pos`.
    pub fn from_local_and_chunk_pos(local_pos: LocalBlockPosition, chunk_pos: ChunkPosition) -> (r:
        Self)
        requires
            local_pos.is_valid(),
            i32::MIN <= local_pos.0.x + 32 * chunk_pos.0.x <= i32::MAX,
            i32::MIN <= local_pos.0.y + 32 * chunk_pos.0.y <= i32::MAX,
            i32::MIN <= local_pos.0.z + 32 * chunk_pos.0.z <= i32::MAX,
        ensures
            r.0.x == local_pos.0.x + 32 * chunk_pos.0.x,
            r.0.y == local_pos.0.y + 32 * chunk_pos.0.y,
            r.0.z == local_pos.0.z + 32 * chunk_pos.0.z,
    {
        let l = local_pos.as_ivec3();
        let c = chunk_pos.0;
        GlobalBlockPosition(
            IVec3 {
                x: l.x + c.x * CHUNK_SIZE_I32,
                y: l.y + c.y * CHUNK_SIZE_I32,
                z: l.z + c.z * CHUNK_SIZE_I32,
            },
        )
    }

    /// Given a global block position, return the position of the block within its chunk and the
    /// position of the chunk containing it
    pub fn get_local_and_chunk_pos(&self) -> (r: (LocalBlockPosition, ChunkPosition))
        ensures
            r.0 == LocalBlockPosition::from_global_spec(*self),
            r.1 == ChunkPosition::containing_spec(*self),
            r.0.is_valid(),
    {
        let g = self.0;
        let local_pos = LocalBlockPosition::from_global_pos(*self);
        proof {
            lemma_mask_shift_i32(g.x);
            lemma_mask_shift_i32(g.y);
            lemma_mask_shift_i32(g.z);
        }
        let chunk_pos = ChunkPosition(IVec3 { x: g.x >> 5, y: g.y >> 5, z: g.z >> 5 });
        (local_pos, chunk_pos)
    }
}

impl LocalBlockPosition {
    /// The position of a world block within its chunk.
    pub open spec fn from_global_spec(g: GlobalBlockPosition) -> LocalBlockPosition {
        LocalBlockPosition(
            UVec3 {
                x: local_coord_spec(g.0.x as int) as u32,
                y: local_coord_spec(g.0.y as int) as u32,
                z: local_coord_spec(g.0.z as int) as u32,
            },
        )
    }
}

/// Position of a chunk in the world
#[derive(Clone, Copy, Debug, PartialEq, Eq, Hash, Structural)]
pub struct ChunkPosition(pub IVec3);

impl ChunkPosition {
    /// The chunk containing a world block position.
    pub open spec fn containing_spec(g: GlobalBlockPosition) -> ChunkPosition {
        ChunkPosition(
            IVec3 {
                x: chunk_coord_spec(g.0.x as int) as i32,
                y: chunk_coord_spec(g.0.y as int) as i32,
                z: chunk_coord_spec(g.0.z as int) as i32,
            },
        )
    }

    /// The chunk position `(0, 0, 0)` (`ChunkPosition::ZERO`).
    pub fn zero() -> (r: Self)
        ensures
            r.0.x == 0 && r.0.y == 0 && r.0.z == 0,
    {
        ChunkPosition(IVec3 { x: 0, y: 0, z: 0 })
    }

    /// Creates a chunk position from its three coordinates.
    pub fn new(x: i32, y: i32, z: i32) -> (r: Self)
        ensures
            r.0.x == x && r.0.y == y && r.0.z == z,
    {
        ChunkPosition(IVec3 { x, y, z })
    }

    /// The coordinates as a signed vector.
    pub fn as_ivec3(&self) -> (r: IVec3)
        ensures
            r == self.0,
    {
        self.0
    }

    /// Component-wise sum of two chunk positions.
    pub fn plus(self, other: ChunkPosition) -> (r: ChunkPosition)
        requires
            i32::MIN <= self.0.x + other.0.x <= i32::MAX,
            i32::MIN <= self.0.y + other.0.y <= i32::MAX,
            i32::MIN <= self.0.z + other.0.z <= i32::MAX,
        ensures
            r.0.x == self.0.x + other.0.x,
            r.0.y == self.0.y + other.0.y,
            r.0.z == self.0.z + other.0.z,
    {
        ChunkPosition(
            IVec3 {
                x: self.0.x + other.0.x,
                y: self.0.y + other.0.y,
                z: self.0.z + other.0.z,
            },
        )
    }

    /// Component-wise difference of two chunk positions.
    pub fn minus(self, other: ChunkPosition) -> (r: ChunkPosition)
        requires
            i32::MIN <= self.0.x - other.0.x <= i32::MAX,
            i32::MIN <= self.0.y - other.0.y <= i32::MAX,
            i32::MIN <= self.0.z - other.0.z <= i32::MAX,
        ensures
            r.0.x == self.0.x - other.0.x,
            r.0.y == self.0.y - other.0.y,
            r.0.z == self.0.z - other.0.z,
    {
        ChunkPosition(
            IVec3 {
                x: self.0.x - other.0.x,
                y: self.0.y - other.0.y,
                z: self.0.z - other.0.z,
            },
        )
    }
}

/// Splitting a world position into its chunk and in-chunk position and joining them
/// again gives back the world position.
pub proof fn lemma_local_and_chunk_roundtrip(g: GlobalBlockPosition)
    ensures
        LocalBlockPosition::from_global_spec(g).is_valid(),
        LocalBlockPosition::from_global_spec(g).0.x + 32 * ChunkPosition::containing_spec(g).0.x
            == g.0.x,
        LocalBlockPosition::from_global_spec(g).0.y + 32 * ChunkPosition::containing_spec(g).0.y
            == g.0.y,
        LocalBlockPosition::from_global_spec(g).0.z + 32 * ChunkPosition::containing_spec(g).0.z
            == g.0.z,
{
    lemma_mask_shift_i32(g.0.x);
    lemma_mask_shift_i32(g.0.y);
    lemma_mask_shift_i32(g.0.z);
}

/// Different valid positions have different array indices.
pub proof fn lemma_index_injective(p: LocalBlockPosition, q: LocalBlockPosition)
    requires
        p.is_valid(),
        q.is_valid(),
        p.index() == q.index(),
    ensures
        p == q,
{
    lemma_array_index_roundtrip(p);
    lemma_array_index_roundtrip(q);
}

/// Array index and position are inverse to each other for every valid position.
pub proof fn lemma_array_index_roundtrip(p: LocalBlockPosition)
    requires
        p.is_valid(),
    ensures
        0 <= p.index() < 32768,
        p.index() % 32 == p.0.x,
        (p.index() / 32) % 32 == p.0.y,
        (p.index() / 1024) % 32 == p.0.z,
{
    let x = p.0.x as int;
    let y = p.0.y as int;
    let z = p.0.z as int;
    assert(p.index() == x + 32 * (y + 32 * z));
    vstd::arithmetic::div_mod::lemma_fundamental_div_mod_converse(p.index(), 32, y + 32 * z, x);
    vstd::arithmetic::div_mod::lemma_fundamental_div_mod_converse(y + 32 * z, 32, z, y);
    vstd::arithmetic::div_mod::lemma_fundamental_div_mod_converse(p.index(), 1024, z, x + 32 * y);
    vstd::arithmetic::div_mod::lemma_small_mod(z as nat, 32);
}

} // verus!
