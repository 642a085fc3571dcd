//! A simple terrain generator: ground from a noise field, topped with grass, hollowed
//! out by caves and lit by the odd lamp.
//!
//! The noise fields and the dice are sampled by the caller; what is kept here is how
//! the samples make blocks.

use crate::terrain::block::{BlockId, BLOCK_DIRT_ID, BLOCK_GRASS_ID, BLOCK_LAMP_ORANGE_ID};
use crate::terrain::chunk::Chunk;
use crate::terrain::position_types::ChunkPosition;
use crate::util::size::Size3;
use crate::util::vector::UVec3;
use vstd::prelude::*;

verus! {

/// Index of the sample for the block at `(x, y, z)` of the chunk: the samples of one
/// horizontal layer are together, ordered by z, then x.
pub open spec fn sample_index(x: int, z: int, y: int) -> int {
    x + 32 * z + 1024 * y
}

/// Whether there is ground above the block at `(x, y, z)` within its column, or, at the
/// top, just above the chunk.
pub open spec fn solid_above(ground_above: Seq<bool>, ground: Seq<bool>, x: int, z: int, y: int) -> bool
    decreases 31 - y,
{
    if y >= 31 {
        ground_above[x + 32 * z]
    } else {
        solid_above(ground_above, ground, x, z, y + 1) || ground[sample_index(x, z, y + 1)]
    }
}

/// The block generated at `(x, y, z)`: air outside the ground; inside it, a lamp where
/// the dice said so, else air where a cave passes, else dirt under more ground and grass
/// on top.
pub open spec fn generated_block(
    ground_above: Seq<bool>,
    ground: Seq<bool>,
    cave_free: Seq<bool>,
    lamp: Seq<bool>,
    x: int,
    z: int,
    y: int,
) -> BlockId {
    let i = sample_index(x, z, y);
    if !ground[i] {
        BlockId(0)
    } else if lamp[i] {
        BlockId(BLOCK_LAMP_ORANGE_ID)
    } else if !cave_free[i] {
        BlockId(0)
    } else if solid_above(ground_above, ground, x, z, y) {
        BlockId(BLOCK_DIRT_ID)
    } else {
        BlockId(BLOCK_GRASS_ID)
    }
}

/// Ground lies above `(x, y, z)`: at some higher block of its column, or just above
/// the chunk.
pub open spec fn ground_overhead(ground_above: Seq<bool>, ground: Seq<bool>, x: int, z: int, y: int) -> bool {
    ground_above[x + 32 * z] || exists|y2: int| y < y2 < 32 && #[trigger] ground[sample_index(x, z, y2)]
}

/// [`solid_above`] is ground anywhere overhead.
proof fn lemma_solid_above_overhead(ground_above: Seq<bool>, ground: Seq<bool>, x: int, z: int, y: int)
    requires
        y <= 31,
    ensures
        solid_above(ground_above, ground, x, z, y) == ground_overhead(ground_above, ground, x, z, y),
    decreases 31 - y,
{
    if y < 31 {
        lemma_solid_above_overhead(ground_above, ground, x, z, y + 1);
        if ground_overhead(ground_above, ground, x, z, y + 1) {
            if !ground_above[x + 32 * z] {
                let y2 = choose|y2: int| y + 1 < y2 < 32 && #[trigger] ground[sample_index(x, z, y2)];
                assert(y < y2 < 32 && ground[sample_index(x, z, y2)]);
            }
        }
        if ground_overhead(ground_above, ground, x, z, y) && !ground_above[x + 32 * z] {
            let y2 = choose|y2: int| y < y2 < 32 && #[trigger] ground[sample_index(x, z, y2)];
            if y2 > y + 1 {
                assert(ground_overhead(ground_above, ground, x, z, y + 1));
            }
        }
    }
}

/// Grass grows only on top: a ground block that is neither a lamp nor cut by a cave is
/// grass exactly when no ground lies anywhere above it in its column (nor just above
/// the chunk), and dirt otherwise.
pub proof fn lemma_grass_only_on_top(
    ground_above: Seq<bool>,
    ground: Seq<bool>,
    cave_free: Seq<bool>,
    lamp: Seq<bool>,
    x: int,
    z: int,
    y: int,
)
    requires
        0 <= x < 32,
        0 <= z < 32,
        0 <= y < 32,
        ground[sample_index(x, z, y)],
        !lamp[sample_index(x, z, y)],
        cave_free[sample_index(x, z, y)],
    ensures
        generated_block(ground_above, ground, cave_free, lamp, x, z, y) == if ground_overhead(
            ground_above,
            ground,
            x,
            z,
            y,
        ) {
            BlockId(BLOCK_DIRT_ID)
        } else {
            BlockId(BLOCK_GRASS_ID)
        },
{
    lemma_solid_above_overhead(ground_above, ground, x, z, y);
}

/// Distinct blocks of a chunk have distinct sample indices.
proof fn lemma_sample_index_injective(x1: int, z1: int, y1: int, x2: int, z2: int, y2: int)
    requires
        0 <= x1 < 32,
        0 <= z1 < 32,
        0 <= y1 < 32,
        0 <= x2 < 32,
        0 <= z2 < 32,
        0 <= y2 < 32,
        sample_index(x1, z1, y1) == sample_index(x2, z2, y2),
    ensures
        x1 == x2 && z1 == z2 && y1 == y2,
{
}

/// Generate the chunk at `pos` from samples taken at each of its blocks, all indexed by
/// [`sample_index`]: `ground` (the noise is above the ground threshold there),
/// `cave_free` (the cave noise leaves the block filled) and `lamp` (the dice placed a
/// lamp); and from `ground_above`, the ground samples of the layer just above the chunk,
/// indexed by `x + 32 * z`.
pub fn generate_chunk(
    pos: ChunkPosition,
    ground_above: &[bool],
    ground: &[bool],
    cave_free: &[bool],
    lamp: &[bool],
) -> (r: Chunk)
    requires
        ground_above@.len() == 1024,
        ground@.len() == 32768,
        cave_free@.len() == 32768,
        lamp@.len() == 32768,
    ensures
        r.wf(),
        r.position_spec() == pos,
        forall|x: int, z: int, y: int|
            0 <= x < 32 && 0 <= z < 32 && 0 <= y < 32 ==> r.blocks_spec().block_at(#[trigger] sample_index(x, z, y))
                == generated_block(ground_above@, ground@, cave_free@, lamp@, x, z, y),
{
    let mut blocks: Vec<BlockId> = Vec::new();
    while blocks.len() < 32768
        invariant
            blocks@.len() <= 32768,
            forall|i: int| 0 <= i < blocks@.len() ==> #[trigger] blocks@[i] == BlockId(0),
        decreases 32768 - blocks@.len(),
    {
        blocks.push(BlockId(0));
    }
    let size = Size3::splat(32);
    assert(size.product_spec() == 32768) by (nonlinear_arith)
        requires
            size == (Size3 { x: 32, y: 32, z: 32 }),
    ;
    let mut z: u32 = 0;
    while z < 32
        invariant
            z <= 32,
            size == (Size3 { x: 32, y: 32, z: 32 }),
            ground_above@.len() == 1024,
            ground@.len() == 32768,
            cave_free@.len() == 32768,
            lamp@.len() == 32768,
            blocks@.len() == 32768,
            forall|i: int| 0 <= i < 32768 ==> (#[trigger] blocks@[i]).0 < 5,
            forall|xx: int, zz: int, yy: int|
                0 <= xx < 32 && 0 <= zz < 32 && 0 <= yy < 32 ==> blocks@[#[trigger] sample_index(xx, zz, yy)] == if zz < z {
                    generated_block(ground_above@, ground@, cave_free@, lamp@, xx, zz, yy)
                } else {
                    BlockId(0)
                },
        decreases 32 - z,
    {
        let mut x: u32 = 0;
        while x < 32
            invariant
                z < 32,
                x <= 32,
                size == (Size3 { x: 32, y: 32, z: 32 }),
                ground_above@.len() == 1024,
                ground@.len() == 32768,
                cave_free@.len() == 32768,
                lamp@.len() == 32768,
                blocks@.len() == 32768,
                forall|i: int| 0 <= i < 32768 ==> (#[trigger] blocks@[i]).0 < 5,
                forall|xx: int, zz: int, yy: int|
                    0 <= xx < 32 && 0 <= zz < 32 && 0 <= yy < 32 ==> blocks@[#[trigger] sample_index(xx, zz, yy)] == if zz < z
                        || (zz == z && xx < x) {
                        generated_block(ground_above@, ground@, cave_free@, lamp@, xx, zz, yy)
                    } else {
                        BlockId(0)
                    },
            decreases 32 - x,
        {
            let mut solid = ground_above[(x + 32 * z) as usize];
            let mut done: u32 = 0;
            while done < 32
                invariant
                    z < 32,
                    x < 32,
                    done <= 32,
                    size == (Size3 { x: 32, y: 32, z: 32 }),
                    ground_above@.len() == 1024,
                    ground@.len() == 32768,
                    cave_free@.len() == 32768,
                    lamp@.len() == 32768,
                    blocks@.len() == 32768,
                    done < 32 ==> solid == solid_above(ground_above@, ground@, x as int, z as int, 31 - done),
                    forall|i: int| 0 <= i < 32768 ==> (#[trigger] blocks@[i]).0 < 5,
                    forall|xx: int, zz: int, yy: int|
                        0 <= xx < 32 && 0 <= zz < 32 && 0 <= yy < 32 ==> blocks@[#[trigger] sample_index(xx, zz, yy)] == if zz
                            < z || (zz == z && xx < x) || (zz == z && xx == x && yy > 31 - done) {
                            generated_block(ground_above@, ground@, cave_free@, lamp@, xx, zz, yy)
                        } else {
                            BlockId(0)
                        },
                decreases 32 - done,
            {
                let y = 31 - done;
                let index = size.flatten(UVec3 { x, y: z, z: y });
                assert(index == sample_index(x as int, z as int, y as int));
                let ghost before = blocks@;
                if ground[index] {
                    if cave_free[index] {
                        if solid {
                            blocks.set(index, BlockId(BLOCK_DIRT_ID));
                        } else {
                            blocks.set(index, BlockId(BLOCK_GRASS_ID));
                        }
                    }
                    solid = true;
                    if lamp[index] {
                        blocks.set(index, BlockId(BLOCK_LAMP_ORANGE_ID));
                    }
                }
                proof {
                    assert(blocks@[index as int] == generated_block(
                        ground_above@,
                        ground@,
                        cave_free@,
                        lamp@,
                        x as int,
                        z as int,
                        y as int,
                    ));
                    assert forall|xx: int, zz: int, yy: int|
                        0 <= xx < 32 && 0 <= zz < 32 && 0 <= yy < 32 && sample_index(xx, zz, yy) != index implies blocks@[
                        #[trigger] sample_index(xx, zz, yy)] == before[sample_index(xx, zz, yy)] by {}
                    assert forall|xx: int, zz: int, yy: int|
                        0 <= xx < 32 && 0 <= zz < 32 && 0 <= yy < 32 && sample_index(xx, zz, yy) == index implies xx == x
                            && zz == z && yy == y by {
                        lemma_sample_index_injective(xx, zz, yy, x as int, z as int, y as int);
                    }
                    if done + 1 < 32 {
                        assert(solid_above(ground_above@, ground@, x as int, z as int, 31 - (done + 1)) == (solid_above(
                            ground_above@,
                            ground@,
                            x as int,
                            z as int,
                            y as int,
                        ) || ground@[sample_index(x as int, z as int, y as int)]));
                    }
                }
                done = done + 1;
            }
            x = x + 1;
        }
        z = z + 1;
    }
    proof {
        assert forall|i: int| 0 <= i < 32768 implies (#[trigger] blocks@[i]).0 < 5 by {}
    }
    let chunk = Chunk::new(pos, blocks.as_slice());
    proof {
        assert forall|x: int, z: int, y: int|
            0 <= x < 32 && 0 <= z < 32 && 0 <= y < 32 implies chunk.blocks_spec().block_at(#[trigger] sample_index(x, z, y))
                == generated_block(ground_above@, ground@, cave_free@, lamp@, x, z, y) by {
            assert(blocks@[sample_index(x, z, y)] == generated_block(ground_above@, ground@, cave_free@, lamp@, x, z, y));
        }
    }
    chunk
}

} // verus!
