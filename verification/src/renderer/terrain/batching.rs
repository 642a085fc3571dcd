//! To reduce draw calls, neighbouring chunks are grouped into batches, where the mesh of
//! a batch is the concatenation of the meshes of the chunks it contains.
//!
//! What is kept here is the bookkeeping: which mesh each chunk of a batch has and in what
//! state it is, and which batch serves which place in the world. The buffers on the
//! graphics device that hold a batch's vertices are kept by the caller, who uploads what
//! [`ChunkBatch::update_vertex_buffer`] hands back.

use crate::runtime::tasks::{PendingTask, TaskId, TaskPriority, Tasks};
use crate::terrain::block::{BlockId, BLOCK_AIR_ID};
use crate::terrain::chunk::storage::ChunkBlockStorage;
use crate::terrain::chunk::Chunk;
use crate::terrain::load_area::{rem_euclid_i32, LoadArea};
use crate::terrain::position_types::ChunkPosition;
use crate::util::size::Size3;
use crate::util::vector::{IVec3, UVec3};
use vstd::prelude::*;

verus! {

/// Size of one chunk batch on each axis, in chunks
/// Larger batches mean fewer draw calls, but more time spent recombining meshes and
/// less granularity for culling
pub const CHUNK_BATCH_SIZE: usize = 2;

/// Size of one chunk batch on each axis, squared
pub const CHUNK_BATCH_SIZE_SQUARED: usize = 4;

/// Size of one chunk batch on each axis, cubed.
/// The number of chunks in one batch
pub const CHUNK_BATCH_SIZE_CUBED: usize = 8;

/// The length of one chunk batch in the world
pub const CHUNK_BATCH_TOTAL_SIZE: usize = 64;

/// Task priority class of updating the mesh of a chunk that was modified
pub const CHUNK_MESH_UPDATE_PRIORITY: i32 = 0;

/// Task priority class of generating the mesh of a chunk that has none
pub const CHUNK_MESH_GENERATION_PRIORITY: i32 = 1;

/// Task priority class of loading a chunk
pub const CHUNK_LOADING_PRIORITY: i32 = 2;

/// Task priority class of regenerating a mesh that could be optimised now that the
/// chunk's neighbours are loaded
pub const CHUNK_MESH_OPTIMIZATION_PRIORITY: i32 = 3;


/// The state of the mesh of one chunk in a batch.
#[derive(Clone, Copy, Debug, PartialEq, Eq, Structural)]
pub enum ChunkMeshStatus {
    /// The mesh is up to date.
    Good,
    /// The mesh is being generated by the given task.
    Generating(TaskId),
    /// There is no mesh.
    Missing,
    /// The mesh could be better now that neighbouring chunks are loaded.
    Suboptimal,
    /// The chunk changed since the mesh was made.
    Outdated,
}

impl ChunkMeshStatus {
    /// The status is `Missing`.
    pub fn is_missing(&self) -> (r: bool)
        ensures
            r == (*self is Missing),
    {
        match self {
            ChunkMeshStatus::Missing => true,
            _ => false,
        }
    }

    /// The status is `Outdated`.
    pub fn is_outdated(&self) -> (r: bool)
        ensures
            r == (*self is Outdated),
    {
        match self {
            ChunkMeshStatus::Outdated => true,
            _ => false,
        }
    }
}

/// A finished mesh of a chunk, with the time at which it was requested.
#[derive(Clone, Debug)]
pub struct ChunkMeshData<V> {
    pub vertices: Vec<V>,
    /// When the mesh was queued for generation, in nanoseconds of a monotonic clock.
    pub queued_instant: u64,
}

/// Index of a chunk's slot in its batch, from its position in the batch.
pub open spec fn slot_index(pos: UVec3) -> int {
    4 * pos.z + 2 * pos.y + pos.x
}

/// `pos` is a position within a batch.
pub open spec fn in_batch(pos: UVec3) -> bool {
    pos.x < 2 && pos.y < 2 && pos.z < 2
}

/// The vertices of the meshes present in `data`, in slot order.
pub open spec fn concat_meshes<V>(data: Seq<Option<ChunkMeshData<V>>>) -> Seq<V>
    decreases data.len(),
{
    if data.len() == 0 {
        Seq::empty()
    } else {
        concat_meshes(data.drop_last()) + match data.last() {
            Some(m) => m.vertices@,
            None => Seq::empty(),
        }
    }
}

/// The meshes of the chunks of one batch. Chunk batches live for a long time: they are
/// reused for new places as the terrain moves.
pub struct ChunkBatch<V> {
    /// Whether this batch has received new chunk vertices since the last time
    /// `update_vertex_buffer` was called
    vertex_buffer_needs_updating: bool,
    /// Current position of this batch in the grid of chunk batches
    position: IVec3,
    /// Number of vertices in the combined mesh
    vertex_count: usize,
    /// Mesh data for each chunk in the batch
    chunk_mesh_data: Vec<Option<ChunkMeshData<V>>>,
    /// Mesh status for each chunk in the batch
    chunk_mesh_status: Vec<ChunkMeshStatus>,
}

impl<V> ChunkBatch<V> {
    /// The combined mesh is out of date.
    pub closed spec fn needs_update(&self) -> bool {
        self.vertex_buffer_needs_updating
    }

    /// The place of the batch in the grid of batches.
    pub closed spec fn position_spec(&self) -> IVec3 {
        self.position
    }

    /// The number of vertices of the combined mesh made last.
    pub closed spec fn vertex_count_spec(&self) -> usize {
        self.vertex_count
    }

    /// The mesh of each chunk of the batch, by slot.
    pub closed spec fn mesh_data_spec(&self) -> Seq<Option<ChunkMeshData<V>>> {
        self.chunk_mesh_data@
    }

    /// The mesh status of each chunk of the batch, by slot.
    pub closed spec fn status_spec(&self) -> Seq<ChunkMeshStatus> {
        self.chunk_mesh_status@
    }

    /// One slot per chunk of the batch, and an index count that fits in a `usize`.
    pub open spec fn wf(&self) -> bool {
        &&& self.mesh_data_spec().len() == 8
        &&& self.status_spec().len() == 8
        &&& self.vertex_count_spec() * 3 <= usize::MAX
    }

    /// A batch at `pos` with no meshes.
    pub open spec fn is_empty_at(&self, pos: IVec3) -> bool {
        &&& self.wf()
        &&& self.position_spec() == pos
        &&& !self.needs_update()
        &&& self.vertex_count_spec() == 0
        &&& forall|i: int| 0 <= i < 8 ==> (#[trigger] self.mesh_data_spec()[i]) is None
        &&& forall|i: int| 0 <= i < 8 ==> (#[trigger] self.status_spec()[i]) is Missing
    }

    /// A batch at `pos` with no meshes.
    pub fn new(pos: IVec3) -> (r: Self)
        ensures
            r.is_empty_at(pos),
    {
        let mut chunk_mesh_data: Vec<Option<ChunkMeshData<V>>> = Vec::new();
        let mut chunk_mesh_status: Vec<ChunkMeshStatus> = Vec::new();
        while chunk_mesh_data.len() < CHUNK_BATCH_SIZE_CUBED
            invariant
                chunk_mesh_data@.len() <= 8,
                chunk_mesh_status@.len() == chunk_mesh_data@.len(),
                forall|i: int| 0 <= i < chunk_mesh_data@.len() ==> (#[trigger] chunk_mesh_data@[i]) is None,
                forall|i: int| 0 <= i < chunk_mesh_status@.len() ==> (#[trigger] chunk_mesh_status@[i]) is Missing,
            decreases 8 - chunk_mesh_data@.len(),
        {
            chunk_mesh_data.push(None);
            chunk_mesh_status.push(ChunkMeshStatus::Missing);
        }
        ChunkBatch {
            vertex_buffer_needs_updating: false,
            position: pos,
            vertex_count: 0,
            chunk_mesh_data,
            chunk_mesh_status,
        }
    }

    /// Reset this chunk batch so that it can be reused
    pub fn reset(&mut self, pos: IVec3)
        ensures
            final(self).is_empty_at(pos),
    {
        *self = ChunkBatch::new(pos);
    }

    /// Update the stored mesh for the given chunk.
    /// If the new mesh was queued earlier than the stored one, it is out of date and is
    /// discarded.
    /// This function does not update the batch's combined mesh
    /// Returns true if the mesh was stored
    pub fn set_mesh_data_for_chunk(&mut self, chunk_pos_in_batch: UVec3, mesh_data: ChunkMeshData<V>) -> (r: bool)
        requires
            old(self).wf(),
            in_batch(chunk_pos_in_batch),
        ensures
            final(self).wf(),
            r == !(old(self).mesh_data_spec()[slot_index(chunk_pos_in_batch)] matches Some(m)
                && mesh_data.queued_instant < m.queued_instant),
            r ==> final(self).mesh_data_spec() == old(self).mesh_data_spec().update(
                slot_index(chunk_pos_in_batch),
                Some(mesh_data),
            ) && final(self).status_spec() == old(self).status_spec().update(
                slot_index(chunk_pos_in_batch),
                ChunkMeshStatus::Good,
            ) && final(self).needs_update(),
            !r ==> *final(self) == *old(self),
            final(self).mesh_data_spec()[slot_index(chunk_pos_in_batch)] == mesh_after(
                old(self).mesh_data_spec()[slot_index(chunk_pos_in_batch)],
                mesh_data,
            ),
            final(self).position_spec() == old(self).position_spec(),
            final(self).vertex_count_spec() == old(self).vertex_count_spec(),
    {
        let index = Self::get_index_for_chunk(&chunk_pos_in_batch);
        let stale = match &self.chunk_mesh_data[index] {
            Some(existing_mesh_data) => mesh_data.queued_instant < existing_mesh_data.queued_instant,
            None => false,
        };
        if stale {
            return false;
        }
        self.chunk_mesh_data.set(index, Some(mesh_data));
        self.chunk_mesh_status.set(index, ChunkMeshStatus::Good);
        self.vertex_buffer_needs_updating = true;
        true
    }

    /// Clear the stored mesh for the given chunk position
    pub fn clear_mesh_data_for_chunk(&mut self, chunk_pos_in_batch: &UVec3)
        requires
            old(self).wf(),
            in_batch(*chunk_pos_in_batch),
        ensures
            final(self).wf(),
            final(self).mesh_data_spec() == old(self).mesh_data_spec().update(slot_index(*chunk_pos_in_batch), None),
            final(self).status_spec() == old(self).status_spec(),
            final(self).needs_update() == old(self).needs_update(),
            final(self).position_spec() == old(self).position_spec(),
            final(self).vertex_count_spec() == old(self).vertex_count_spec(),
    {
        let index = Self::get_index_for_chunk(chunk_pos_in_batch);
        self.chunk_mesh_data.set(index, None);
    }

    /// Mark that the mesh for the given chunk position is being generated by a task
    pub fn mark_generating(&mut self, chunk_pos_in_batch: &UVec3, task_id: TaskId)
        requires
            old(self).wf(),
            in_batch(*chunk_pos_in_batch),
        ensures
            final(self).wf(),
            final(self).status_spec() == old(self).status_spec().update(
                slot_index(*chunk_pos_in_batch),
                ChunkMeshStatus::Generating(task_id),
            ),
            final(self).mesh_data_spec() == old(self).mesh_data_spec(),
            final(self).needs_update() == old(self).needs_update(),
            final(self).position_spec() == old(self).position_spec(),
            final(self).vertex_count_spec() == old(self).vertex_count_spec(),
    {
        let index = Self::get_index_for_chunk(chunk_pos_in_batch);
        self.chunk_mesh_status.set(index, ChunkMeshStatus::Generating(task_id));
    }

    /// Mark that the mesh for the given chunk position is outdated, if it exists
    pub fn mark_outdated(&mut self, chunk_pos_in_batch: &UVec3)
        requires
            old(self).wf(),
            in_batch(*chunk_pos_in_batch),
        ensures
            final(self).wf(),
            final(self).status_spec() == old(self).status_spec().update(
                slot_index(*chunk_pos_in_batch),
                outdated_spec(old(self).status_spec()[slot_index(*chunk_pos_in_batch)]),
            ),
            final(self).mesh_data_spec() == old(self).mesh_data_spec(),
            final(self).needs_update() == old(self).needs_update(),
            final(self).position_spec() == old(self).position_spec(),
            final(self).vertex_count_spec() == old(self).vertex_count_spec(),
    {
        let index = Self::get_index_for_chunk(chunk_pos_in_batch);
        if !self.chunk_mesh_status[index].is_missing() {
            self.chunk_mesh_status.set(index, ChunkMeshStatus::Outdated);
        } else {
            assert(self.chunk_mesh_status@ == self.chunk_mesh_status@.update(index as int, self.chunk_mesh_status@[index as int]));
        }
    }

    /// Mark that the mesh for the given chunk position can be optimized, if it exists
    /// and is not outdated
    pub fn mark_suboptimal(&mut self, chunk_pos_in_batch: &UVec3)
        requires
            old(self).wf(),
            in_batch(*chunk_pos_in_batch),
        ensures
            final(self).wf(),
            final(self).status_spec() == old(self).status_spec().update(
                slot_index(*chunk_pos_in_batch),
                suboptimal_spec(old(self).status_spec()[slot_index(*chunk_pos_in_batch)]),
            ),
            final(self).mesh_data_spec() == old(self).mesh_data_spec(),
            final(self).needs_update() == old(self).needs_update(),
            final(self).position_spec() == old(self).position_spec(),
            final(self).vertex_count_spec() == old(self).vertex_count_spec(),
    {
        let index = Self::get_index_for_chunk(chunk_pos_in_batch);
        if !self.chunk_mesh_status[index].is_missing() && !self.chunk_mesh_status[index].is_outdated() {
            self.chunk_mesh_status.set(index, ChunkMeshStatus::Suboptimal);
        } else {
            assert(self.chunk_mesh_status@ == self.chunk_mesh_status@.update(index as int, self.chunk_mesh_status@[index as int]));
        }
    }

    /// Combine the meshes of the chunks of this batch, in slot order, to be uploaded as
    /// the batch's vertex buffer; none if there are no vertices
    pub fn update_vertex_buffer(&mut self) -> (r: Vec<V>) where V: Copy
        requires
            old(self).wf(),
            3 * concat_meshes(old(self).mesh_data_spec()).len() <= usize::MAX,
        ensures
            final(self).wf(),
            r@ == concat_meshes(old(self).mesh_data_spec()),
            final(self).vertex_count_spec() == r@.len(),
            !final(self).needs_update(),
            final(self).mesh_data_spec() == old(self).mesh_data_spec(),
            final(self).status_spec() == old(self).status_spec(),
            final(self).position_spec() == old(self).position_spec(),
    {
        self.vertex_buffer_needs_updating = false;
        let ghost data = self.chunk_mesh_data@;
        // concatenate each chunk's vertices
        let mut vertices_out: Vec<V> = Vec::new();
        let mut i: usize = 0;
        while i < self.chunk_mesh_data.len()
            invariant
                self.chunk_mesh_data@ == data,
                data.len() == 8,
                3 * concat_meshes(data).len() <= usize::MAX,
                i <= 8,
                vertices_out@ == concat_meshes(data.subrange(0, i as int)),
            decreases 8 - i,
        {
            proof {
                lemma_concat_prefix_len(data, i as int + 1);
                assert(data.subrange(0, i as int + 1).drop_last() == data.subrange(0, i as int));
            }
            match &self.chunk_mesh_data[i] {
                Some(mesh_data) => {
                    let mut j: usize = 0;
                    let ghost start = vertices_out@;
                    while j < mesh_data.vertices.len()
                        invariant
                            j <= mesh_data.vertices@.len(),
                            vertices_out@ == start + mesh_data.vertices@.subrange(0, j as int),
                            start.len() + mesh_data.vertices@.len() <= concat_meshes(data).len(),
                            3 * concat_meshes(data).len() <= usize::MAX,
                        decreases mesh_data.vertices@.len() - j,
                    {
                        vertices_out.push(mesh_data.vertices[j]);
                        j = j + 1;
                        assert(vertices_out@ == start + mesh_data.vertices@.subrange(0, j as int));
                    }
                    assert(mesh_data.vertices@.subrange(0, j as int) == mesh_data.vertices@);
                },
                None => {},
            }
            i = i + 1;
        }
        assert(data.subrange(0, 8) == data);
        assert(vertices_out@.len() == concat_meshes(data).len());
        self.vertex_count = vertices_out.len();
        vertices_out
    }

    /// Returns the status of the given chunk in the batch
    pub fn get_chunk_mesh_status(&self, chunk_pos_in_batch: &UVec3) -> (r: ChunkMeshStatus)
        requires
            self.wf(),
            in_batch(*chunk_pos_in_batch),
        ensures
            r == self.status_spec()[slot_index(*chunk_pos_in_batch)],
    {
        let index = Self::get_index_for_chunk(chunk_pos_in_batch);
        self.chunk_mesh_status[index]
    }

    /// Whether the combined mesh is out of date
    pub fn vertex_buffer_needs_updating(&self) -> (r: bool)
        ensures
            r == self.needs_update(),
    {
        self.vertex_buffer_needs_updating
    }

    /// Current position of this batch in the grid of batches
    pub fn position(&self) -> (r: IVec3)
        ensures
            r == self.position_spec(),
    {
        self.position
    }

    /// Returns the number of vertices in this batch
    pub fn vertex_count(&self) -> (r: usize)
        ensures
            r == self.vertex_count_spec(),
    {
        self.vertex_count
    }

    /// Returns the number of indices required to draw this batch
    pub fn index_count(&self) -> (r: usize)
        requires
            self.wf(),
        ensures
            r == self.vertex_count_spec() * 3 / 2,
    {
        self.vertex_count * 3 / 2
    }

    /// Returns the slot index for the chunk with the given position in the batch
    fn get_index_for_chunk(pos: &UVec3) -> (r: usize)
        requires
            in_batch(*pos),
        ensures
            r == slot_index(*pos),
            r < 8,
    {
        CHUNK_BATCH_SIZE_SQUARED * pos.z as usize + CHUNK_BATCH_SIZE * pos.y as usize + pos.x as usize
    }
}


/// `floor(c / 2)`: the batch coordinate of chunk coordinate `c`.
fn div_euclid_2(c: i32) -> (r: i32)
    ensures
        r == (c as int) / 2,
{
    let c64 = c as i64;
    if c64 >= 0 {
        ((c64 as u64) / 2) as i32
    } else {
        let n = (1 - c64) as u64;
        let q = (n / 2) as i64;
        assert((c as int) / 2 == -((1 - c as int) / 2)) by (nonlinear_arith)
            requires
                c < 0,
        ;
        (-q) as i32
    }
}

/// The batch containing the chunk at `c`.
pub open spec fn batch_of(c: ChunkPosition) -> IVec3 {
    IVec3 { x: (c.0.x as int / 2) as i32, y: (c.0.y as int / 2) as i32, z: (c.0.z as int / 2) as i32 }
}

/// The position of the chunk at `c` within its batch.
pub open spec fn pos_in_batch(c: ChunkPosition) -> UVec3 {
    UVec3 { x: (c.0.x as int % 2) as u32, y: (c.0.y as int % 2) as u32, z: (c.0.z as int % 2) as u32 }
}

/// The index in a grid of batches of the given size of the batch for place `p`: the
/// place modulo the grid's size.
pub open spec fn batch_index_spec(size: Size3, p: IVec3) -> int {
    size.flatten_spec((p.x as int) % (size.x as int), (p.y as int) % (size.y as int), (p.z as int) % (size.z as int))
}

/// The grid of batches for a load area of the given size: half as many on each axis,
/// plus one.
pub open spec fn batch_grid_size_spec(load_area_size: Size3) -> Size3 {
    Size3 { x: (load_area_size.x / 2 + 1) as usize, y: (load_area_size.y / 2 + 1) as usize, z: (load_area_size.z / 2 + 1) as usize }
}

/// Responsible for managing chunk batches: a grid of them, each serving the places
/// congruent to its own modulo the grid's size
pub struct ChunkBatches<V> {
    /// 3D array of chunk batches indexed by flatten(`batch_pos % batch_grid_size`)
    batches: Vec<ChunkBatch<V>>,
    /// Size of the grid of chunk batches
    batch_grid_size: Size3,
}

impl<V> ChunkBatches<V> {
    /// The batches, by index.
    pub closed spec fn batches_spec(&self) -> Seq<ChunkBatch<V>> {
        self.batches@
    }

    /// The size of the grid of batches.
    pub closed spec fn size_spec(&self) -> Size3 {
        self.batch_grid_size
    }

    /// One well-formed batch per cell of a non-empty grid.
    pub open spec fn wf(&self) -> bool {
        &&& self.size_spec().wf()
        &&& self.size_spec().x > 0 && self.size_spec().y > 0 && self.size_spec().z > 0
        &&& self.batches_spec().len() == self.size_spec().product_spec()
        &&& forall|i: int| 0 <= i < self.batches_spec().len() ==> (#[trigger] self.batches_spec()[i]).wf()
    }

    /// The index of the batch for place `p`.
    pub open spec fn index_of(&self, p: IVec3) -> int {
        batch_index_spec(self.size_spec(), p)
    }

    /// The batch for place `p` is assigned to it.
    pub open spec fn assigned(&self, p: IVec3) -> bool {
        self.batches_spec()[self.index_of(p)].position_spec() == p
    }

    /// Batches for a load area: a grid of half its size plus one on each axis, listed by
    /// x, then y, then z, each placed at its own grid position.
    pub fn new(load_area: &LoadArea) -> (r: Self)
        requires
            batch_grid_size_spec(load_area.size_spec()).wf(),
        ensures
            r.wf(),
            r.size_spec() == batch_grid_size_spec(load_area.size_spec()),
            forall|i: int|
                0 <= i < r.batches_spec().len() ==> (#[trigger] r.batches_spec()[i]).is_empty_at(
                    IVec3 {
                        x: (i / (r.size_spec().y * r.size_spec().z)) as i32,
                        y: ((i / r.size_spec().z as int) % r.size_spec().y as int) as i32,
                        z: (i % r.size_spec().z as int) as i32,
                    },
                ),
    {
        let batch_grid_size = Self::compute_batch_grid_size(load_area);
        let n = batch_grid_size.product();
        proof {
            assert(batch_grid_size.y * batch_grid_size.z <= batch_grid_size.x * batch_grid_size.y * batch_grid_size.z) by (nonlinear_arith)
                requires
                    batch_grid_size.x > 0,
            ;
            assert(batch_grid_size.y * batch_grid_size.z > 0) by (nonlinear_arith)
                requires
                    batch_grid_size.y > 0,
                    batch_grid_size.z > 0,
            ;
        }
        let yz = batch_grid_size.y * batch_grid_size.z;
        let mut batches: Vec<ChunkBatch<V>> = Vec::new();
        let mut k: usize = 0;
        while k < n
            invariant
                k <= n,
                n == batch_grid_size.product_spec(),
                yz == batch_grid_size.y * batch_grid_size.z,
                yz > 0,
                batch_grid_size.wf(),
                batch_grid_size.z > 0,
                batch_grid_size.y > 0,
                batches@.len() == k,
                forall|i: int|
                    0 <= i < k ==> (#[trigger] batches@[i]).is_empty_at(
                        IVec3 {
                            x: (i / yz as int) as i32,
                            y: ((i / batch_grid_size.z as int) % batch_grid_size.y as int) as i32,
                            z: (i % batch_grid_size.z as int) as i32,
                        },
                    ),
            decreases n - k,
        {
            let x = k / yz;
            let y = (k / batch_grid_size.z) % batch_grid_size.y;
            let z = k % batch_grid_size.z;
            proof {
                assert(x <= k / yz);
                vstd::arithmetic::div_mod::lemma_div_is_ordered_by_denominator(k as int, 1, yz as int);
                assert(x * yz <= k) by (nonlinear_arith)
                    requires
                        x == k / yz,
                        yz > 0,
                ;
                assert(x < batch_grid_size.x) by (nonlinear_arith)
                    requires
                        x * yz <= k,
                        k < batch_grid_size.x * batch_grid_size.y * batch_grid_size.z,
                        yz == batch_grid_size.y * batch_grid_size.z,
                        yz > 0,
                ;
            }
            proof {
                vstd::arithmetic::div_mod::lemma_mod_bound((k / batch_grid_size.z) as int, batch_grid_size.y as int);
                vstd::arithmetic::div_mod::lemma_mod_bound(k as int, batch_grid_size.z as int);
            }
            let pos = IVec3 { x: x as i32, y: y as i32, z: z as i32 };
            batches.push(ChunkBatch::new(pos));
            k = k + 1;
        }
        ChunkBatches { batches, batch_grid_size }
    }

    /// Returns the position of the batch in the grid of batches containing the chunk and the
    /// position of the chunk in the batch
    pub fn get_batch_pos_and_chunk_pos_in_batch(chunk_pos: &ChunkPosition) -> (r: (IVec3, UVec3))
        ensures
            r.0 == batch_of(*chunk_pos),
            r.1 == pos_in_batch(*chunk_pos),
            in_batch(r.1),
            2 * r.0.x + r.1.x == chunk_pos.0.x,
            2 * r.0.y + r.1.y == chunk_pos.0.y,
            2 * r.0.z + r.1.z == chunk_pos.0.z,
    {
        let bx = div_euclid_2(chunk_pos.0.x);
        let by = div_euclid_2(chunk_pos.0.y);
        let bz = div_euclid_2(chunk_pos.0.z);
        let batch_pos = IVec3 { x: bx, y: by, z: bz };
        let in_batch_pos = UVec3 {
            x: (chunk_pos.0.x as i64 - 2 * bx as i64) as u32,
            y: (chunk_pos.0.y as i64 - 2 * by as i64) as u32,
            z: (chunk_pos.0.z as i64 - 2 * bz as i64) as u32,
        };
        (batch_pos, in_batch_pos)
    }

    /// Returns the index in `batches` for the given batch position
    pub fn get_batch_index(&self, batch_pos: &IVec3) -> (r: usize)
        requires
            self.wf(),
        ensures
            r == self.index_of(*batch_pos),
            r < self.batches_spec().len(),
    {
        let gx = rem_euclid_i32(batch_pos.x, self.batch_grid_size.x);
        let gy = rem_euclid_i32(batch_pos.y, self.batch_grid_size.y);
        let gz = rem_euclid_i32(batch_pos.z, self.batch_grid_size.z);
        self.batch_grid_size.flatten(UVec3 { x: gx as u32, y: gy as u32, z: gz as u32 })
    }

    /// Returns the batch at the given position, or None if there is no batch
    /// assigned to this position
    pub fn get_batch(&self, batch_pos: &IVec3) -> (r: Option<&ChunkBatch<V>>)
        requires
            self.wf(),
        ensures
            r == if self.assigned(*batch_pos) {
                Some(&self.batches_spec()[self.index_of(*batch_pos)])
            } else {
                None
            },
    {
        let index = self.get_batch_index(batch_pos);
        let batch = &self.batches[index];
        if batch.position == *batch_pos {
            Some(batch)
        } else {
            // the batch at this index is assigned to another position
            None
        }
    }


    /// If a batch is assigned to the given position, its index in `batches`
    fn assigned_index(&self, batch_pos: &IVec3) -> (r: Option<usize>)
        requires
            self.wf(),
        ensures
            r is Some <==> self.assigned(*batch_pos),
            r matches Some(i) ==> i == self.index_of(*batch_pos) && i < self.batches_spec().len(),
    {
        let index = self.get_batch_index(batch_pos);
        if self.batches[index].position == *batch_pos {
            Some(index)
        } else {
            None
        }
    }

    /// Repurposes the chunk batch with the same index in `batches` to the new position,
    /// cancelling the mesh generation tasks still waiting for its chunks
    /// No-op if the batch position already matches
    /// Returns the index of the batch
    pub fn get_or_repurpose_batch<T>(&mut self, tasks: &mut Tasks<T>, batch_pos: &IVec3) -> (r: usize)
        requires
            old(self).wf(),
            old(tasks).wf(),
        ensures
            final(self).wf(),
            final(tasks).wf(),
            r == old(self).index_of(*batch_pos),
            final(self).size_spec() == old(self).size_spec(),
            old(self).assigned(*batch_pos) ==> *final(self) == *old(self) && *final(tasks) == *old(tasks),
            !old(self).assigned(*batch_pos) ==> {
                &&& final(self).batches_spec() == old(self).batches_spec().update(r as int, final(self).batches_spec()[r as int])
                &&& final(self).batches_spec()[r as int].is_empty_at(*batch_pos)
                &&& forall|k: int|
                    0 <= k < final(tasks).pending().len() ==> !generating_in(
                        old(self).batches_spec()[r as int],
                        (#[trigger] final(tasks).pending()[k]).0,
                    ) && old(tasks).pending().contains(final(tasks).pending()[k])
                &&& forall|k: int|
                    0 <= k < old(tasks).pending().len() && !generating_in(
                        old(self).batches_spec()[r as int],
                        (#[trigger] old(tasks).pending()[k]).0,
                    ) ==> final(tasks).pending().contains(old(tasks).pending()[k])
                &&& final(tasks).active() == old(tasks).active()
                &&& final(tasks).submitted() == old(tasks).submitted()
                &&& final(tasks).workers() == old(tasks).workers()
                &&& final(tasks).terminating() == old(tasks).terminating()
            },
            final(self).assigned(*batch_pos),
    {
        let index = self.get_batch_index(batch_pos);
        if self.batches[index].position != *batch_pos {
            let ghost statuses = self.batches@[index as int].status_spec();
            let ghost pending0 = tasks.pending();
            // cancel any mesh generation tasks queued for this chunk batch
            let mut i: usize = 0;
            while i < 8
                invariant
                    self.wf(),
                    *self == *old(self),
                    index < self.batches@.len(),
                    statuses == self.batches@[index as int].status_spec(),
                    tasks.wf(),
                    i <= 8,
                    tasks.active() == old(tasks).active(),
                    tasks.submitted() == old(tasks).submitted(),
                    tasks.workers() == old(tasks).workers(),
                    tasks.terminating() == old(tasks).terminating(),
                    pending0 == old(tasks).pending(),
                    forall|k: int|
                        0 <= k < tasks.pending().len() ==> !generating_in_prefix(statuses, i as int, (#[trigger] tasks.pending()[k]).0)
                            && pending0.contains(tasks.pending()[k]),
                    forall|k: int|
                        0 <= k < pending0.len() && !generating_in_prefix(statuses, i as int, (#[trigger] pending0[k]).0)
                            ==> tasks.pending().contains(pending0[k]),
                decreases 8 - i,
            {
                match self.batches[index].chunk_mesh_status[i] {
                    ChunkMeshStatus::Generating(task_id) => {
                        let ghost before = tasks.pending();
                        tasks.cancel_if_pending(task_id);
                        proof {
                            assert forall|k: int| 0 <= k < tasks.pending().len() implies !generating_in_prefix(
                                statuses,
                                i as int + 1,
                                (#[trigger] tasks.pending()[k]).0,
                            ) && pending0.contains(tasks.pending()[k]) by {
                                let e = tasks.pending()[k];
                                if tasks.pending() != before {
                                    let j = choose|j: int|
                                        0 <= j < before.len() && (#[trigger] before[j]).0 == task_id && tasks.pending()
                                            == before.remove(j);
                                    let kk = if k < j { k } else { k + 1 };
                                    assert(e == before[kk]);
                                    assert(before.contains(before[kk]));
                                } else {
                                    assert(before.contains(e));
                                }
                                let b = choose|b: int| 0 <= b < before.len() && before[b] == e;
                                assert(!generating_in_prefix(statuses, i as int, before[b].0));
                            }
                            assert forall|k: int|
                                0 <= k < pending0.len() && !generating_in_prefix(statuses, i as int + 1, (#[trigger] pending0[k]).0)
                                    implies tasks.pending().contains(pending0[k]) by {
                                assert(!generating_in_prefix(statuses, i as int, pending0[k].0));
                                let b = choose|b: int| 0 <= b < before.len() && before[b] == pending0[k];
                                if tasks.pending() != before {
                                    let j = choose|j: int|
                                        0 <= j < before.len() && (#[trigger] before[j]).0 == task_id && tasks.pending()
                                            == before.remove(j);
                                    assert(b != j);
                                    let kk = if b < j { b } else { b - 1 };
                                    assert(tasks.pending()[kk] == before[b]);
                                } else {
                                    assert(tasks.pending()[b] == before[b]);
                                }
                            }
                        }
                    },
                    _ => {
                        proof {
                            assert forall|k: int| 0 <= k < tasks.pending().len() implies !generating_in_prefix(
                                statuses,
                                i as int + 1,
                                (#[trigger] tasks.pending()[k]).0,
                            ) && pending0.contains(tasks.pending()[k]) by {}
                            assert forall|k: int|
                                0 <= k < pending0.len() && !generating_in_prefix(statuses, i as int + 1, (#[trigger] pending0[k]).0)
                                    implies tasks.pending().contains(pending0[k]) by {
                                assert(!generating_in_prefix(statuses, i as int, pending0[k].0));
                            }
                        }
                    },
                }
                i = i + 1;
            }
            let mut batch = ChunkBatch::new(*batch_pos);
            self.batches.set(index, batch);
            proof {
                assert(self.batches_spec()[index as int].is_empty_at(*batch_pos));
                assert forall|k: int| 0 <= k < self.batches_spec().len() implies (#[trigger] self.batches_spec()[k]).wf() by {
                    if k != index {
                        assert(self.batches_spec()[k] == old(self).batches_spec()[k]);
                    }
                }
            }
        }
        index
    }

    /// Called whenever a finished chunk mesh arrives: stores it in its batch, unless the
    /// chunk is no longer loaded, no batch is assigned to it, or the mesh is older than
    /// the stored one
    pub fn finished_mesh_received(&mut self, loaded_area: &LoadArea, chunk_pos: ChunkPosition, mesh_data: ChunkMeshData<V>)
        requires
            old(self).wf(),
            loaded_area.wf(),
        ensures
            final(self).wf(),
            final(self).size_spec() == old(self).size_spec(),
            ({
                let b = batch_of(chunk_pos);
                let i = old(self).index_of(b);
                let slot = slot_index(pos_in_batch(chunk_pos));
                if loaded_area.state_of(chunk_pos) is Loaded && old(self).assigned(b) && !(
                old(self).batches_spec()[i].mesh_data_spec()[slot] matches Some(m) && mesh_data.queued_instant
                    < m.queued_instant) {
                    &&& final(self).batches_spec() == old(self).batches_spec().update(i, final(self).batches_spec()[i])
                    &&& final(self).batches_spec()[i].mesh_data_spec() == old(self).batches_spec()[i].mesh_data_spec().update(
                        slot,
                        Some(mesh_data),
                    )
                    &&& final(self).batches_spec()[i].status_spec() == old(self).batches_spec()[i].status_spec().update(
                        slot,
                        ChunkMeshStatus::Good,
                    )
                    &&& final(self).batches_spec()[i].needs_update()
                    &&& final(self).batches_spec()[i].position_spec() == b
                    &&& final(self).batches_spec()[i].vertex_count_spec() == old(self).batches_spec()[i].vertex_count_spec()
                } else {
                    *final(self) == *old(self)
                }
            }),
    {
        // make sure that the chunk is still loaded
        if !loaded_area.is_loaded(&chunk_pos) {
            return;
        }
        let (batch_pos, chunk_pos_in_batch) = Self::get_batch_pos_and_chunk_pos_in_batch(&chunk_pos);
        match self.assigned_index(&batch_pos) {
            Some(index) => {
                let slot = ChunkBatch::<V>::get_index_for_chunk(&chunk_pos_in_batch);
                let stale = match &self.batches[index].chunk_mesh_data[slot] {
                    Some(existing_mesh_data) => mesh_data.queued_instant < existing_mesh_data.queued_instant,
                    None => false,
                };
                if !stale {
                    let mut batch = self.batches.remove(index);
                    let ghost old_batch = batch;
                    assert(old_batch == old(self).batches_spec()[index as int]);
                    batch.set_mesh_data_for_chunk(chunk_pos_in_batch, mesh_data);
                    self.batches.insert(index, batch);
                    proof {
                        assert(self.batches_spec() == old(self).batches_spec().update(index as int, batch));
                        assert forall|k: int| 0 <= k < self.batches_spec().len() implies (#[trigger] self.batches_spec()[k]).wf() by {
                            if k != index {
                                assert(self.batches_spec()[k] == old(self).batches_spec()[k]);
                            }
                        }
                    }
                }
            },
            None => {},
        }
    }

    /// Submit a task to generate a chunk's mesh, cancelling the one queued before for the
    /// same chunk if it has not started, and mark the chunk's mesh as being generated by
    /// the new task. If this function is called multiple times for the same chunk before
    /// the mesh generation finishes, the mesh from the latest call is used.
    /// Returns whether the chunk is all air, in which case its empty mesh is ready at
    /// once, and the ID of the new task
    pub fn queue_chunk_for_meshing<T>(
        &mut self,
        chunk: &Chunk,
        tasks: &mut Tasks<T>,
        priority: TaskPriority,
        task: T,
    ) -> (r: (bool, TaskId))
        requires
            old(self).wf(),
            old(tasks).wf(),
            old(tasks).submitted() < usize::MAX,
            old(self).assigned(batch_of(chunk.position_spec())),
        ensures
            final(self).wf(),
            final(tasks).wf(),
            r.0 == (chunk.blocks_spec() == ChunkBlockStorage::Uniform(BlockId(BLOCK_AIR_ID))),
            r.1 == TaskId(old(tasks).submitted() as usize),
            final(self).size_spec() == old(self).size_spec(),
            ({
                let i = old(self).index_of(batch_of(chunk.position_spec()));
                let slot = slot_index(pos_in_batch(chunk.position_spec()));
                let batch = old(self).batches_spec()[i];
                let cancelled = |id: TaskId| batch.status_spec()[slot] == ChunkMeshStatus::Generating(id);
                &&& final(self).batches_spec() == old(self).batches_spec().update(i, final(self).batches_spec()[i])
                &&& final(self).batches_spec()[i].status_spec() == batch.status_spec().update(slot, ChunkMeshStatus::Generating(r.1))
                &&& final(self).batches_spec()[i].mesh_data_spec() == batch.mesh_data_spec()
                &&& final(self).batches_spec()[i].position_spec() == batch.position_spec()
                &&& final(self).batches_spec()[i].needs_update() == batch.needs_update()
                &&& final(self).batches_spec()[i].vertex_count_spec() == batch.vertex_count_spec()
                &&& final(tasks).pending().len() > 0
                &&& final(tasks).pending().last() == (r.1, PendingTask { task, priority })
                &&& forall|k: int|
                    0 <= k < final(tasks).pending().len() - 1 ==> !cancelled((#[trigger] final(tasks).pending()[k]).0)
                        && old(tasks).pending().contains(final(tasks).pending()[k])
                &&& forall|k: int|
                    0 <= k < old(tasks).pending().len() && !cancelled((#[trigger] old(tasks).pending()[k]).0)
                        ==> final(tasks).pending().drop_last().contains(old(tasks).pending()[k])
            }),
            final(tasks).submitted() == old(tasks).submitted() + 1,
            final(tasks).active() == old(tasks).active(),
            final(tasks).workers() == old(tasks).workers(),
            final(tasks).terminating() == old(tasks).terminating(),
    {
        // skip meshing air chunks
        let is_air = match chunk.block_store() {
            ChunkBlockStorage::Uniform(block_id) => block_id.0 == BLOCK_AIR_ID,
            _ => false,
        };
        let (batch_pos, chunk_pos_in_batch) = Self::get_batch_pos_and_chunk_pos_in_batch(&chunk.position());
        let index = match self.assigned_index(&batch_pos) {
            Some(index) => index,
            None => {
                assert(false);
                0
            },
        };
        let ghost pending0 = tasks.pending();
        let ghost batch0 = self.batches@[index as int];
        // if we already issued a task to generate this mesh, cancel it
        match self.batches[index].get_chunk_mesh_status(&chunk_pos_in_batch) {
            ChunkMeshStatus::Generating(task_id) => {
                tasks.cancel_if_pending(task_id);
                proof {
                    assert forall|k: int|
                        0 <= k < pending0.len() && !(batch0.status_spec()[slot_index(chunk_pos_in_batch)]
                            == ChunkMeshStatus::Generating((#[trigger] pending0[k]).0)) implies tasks.pending().contains(pending0[k]) by {
                        if tasks.pending() != pending0 {
                            let j = choose|j: int|
                                0 <= j < pending0.len() && (#[trigger] pending0[j]).0 == task_id && tasks.pending()
                                    == pending0.remove(j);
                            assert(k != j);
                            let kk = if k < j { k } else { k - 1 };
                            assert(tasks.pending()[kk] == pending0[k]);
                        } else {
                            assert(tasks.pending()[k] == pending0[k]);
                        }
                    }
                    assert forall|k: int| 0 <= k < tasks.pending().len() implies pending0.contains(#[trigger] tasks.pending()[k]) by {
                        if tasks.pending() != pending0 {
                            let j = choose|j: int|
                                0 <= j < pending0.len() && (#[trigger] pending0[j]).0 == task_id && tasks.pending()
                                    == pending0.remove(j);
                            let kk = if k < j { k } else { k + 1 };
                            assert(tasks.pending()[k] == pending0[kk]);
                        } else {
                            assert(tasks.pending()[k] == pending0[k]);
                        }
                    }
                }
            },
            _ => {},
        }
        let ghost pending1 = tasks.pending();
        let task_id = tasks.submit(priority, task);
        self.batches[index].mark_generating(&chunk_pos_in_batch, task_id);
        proof {
            assert(tasks.pending().drop_last() == pending1);
            assert forall|k: int| 0 <= k < self.batches_spec().len() implies (#[trigger] self.batches_spec()[k]).wf() by {
                if k != index {
                    assert(self.batches_spec()[k] == old(self).batches_spec()[k]);
                }
            }
            assert forall|k: int| 0 <= k < tasks.pending().len() - 1 implies pending0.contains(#[trigger] tasks.pending()[k]) by {
                assert(tasks.pending()[k] == pending1[k]);
                assert(pending1.contains(pending1[k]));
            }
        }
        (is_air, task_id)
    }

    /// Combine the meshes of each batch that received new ones since the last call.
    /// Returns the index and combined mesh of each such batch, in order, to be uploaded,
    /// and the number of vertices the shared index buffer must serve: the largest of
    /// `shared_index_vertex_count` and the new vertex counts
    pub fn update(&mut self, shared_index_vertex_count: usize) -> (r: (Vec<(usize, Vec<V>)>, usize)) where V: Copy
        requires
            old(self).wf(),
            forall|i: int|
                0 <= i < old(self).batches_spec().len() ==> 3 * concat_meshes(
                    (#[trigger] old(self).batches_spec()[i]).mesh_data_spec(),
                ).len() <= usize::MAX,
        ensures
            final(self).wf(),
            final(self).size_spec() == old(self).size_spec(),
            final(self).batches_spec().len() == old(self).batches_spec().len(),
            forall|i: int|
                0 <= i < old(self).batches_spec().len() ==> {
                    let b0 = old(self).batches_spec()[i];
                    let b1 = #[trigger] final(self).batches_spec()[i];
                    if b0.needs_update() {
                        &&& !b1.needs_update()
                        &&& b1.vertex_count_spec() == concat_meshes(b0.mesh_data_spec()).len()
                        &&& b1.mesh_data_spec() == b0.mesh_data_spec()
                        &&& b1.status_spec() == b0.status_spec()
                        &&& b1.position_spec() == b0.position_spec()
                    } else {
                        b1 == b0
                    }
                },
            forall|j: int|
                0 <= j < r.0@.len() ==> (#[trigger] r.0@[j]).0 < old(self).batches_spec().len()
                    && old(self).batches_spec()[r.0@[j].0 as int].needs_update()
                    && r.0@[j].1@ == concat_meshes(old(self).batches_spec()[r.0@[j].0 as int].mesh_data_spec()),
            forall|j1: int, j2: int| 0 <= j1 < j2 < r.0@.len() ==> (#[trigger] r.0@[j1]).0 < (#[trigger] r.0@[j2]).0,
            forall|i: int|
                0 <= i < old(self).batches_spec().len() && (#[trigger] old(self).batches_spec()[i]).needs_update() ==> lists_batch(
                    r.0@,
                    i,
                ),
            r.1 >= shared_index_vertex_count,
            forall|i: int|
                0 <= i < old(self).batches_spec().len() && old(self).batches_spec()[i].needs_update() ==> r.1
                    >= (#[trigger] final(self).batches_spec()[i]).vertex_count_spec(),
            r.1 == shared_index_vertex_count || exists|i: int|
                0 <= i < old(self).batches_spec().len() && old(self).batches_spec()[i].needs_update() && r.1
                    == (#[trigger] final(self).batches_spec()[i]).vertex_count_spec(),
    {
        let mut updated: Vec<(usize, Vec<V>)> = Vec::new();
        let mut highest_vertex_count = shared_index_vertex_count;
        let mut i: usize = 0;
        while i < self.batches.len()
            invariant
                self.wf(),
                self.size_spec() == old(self).size_spec(),
                self.batches_spec().len() == old(self).batches_spec().len(),
                i <= self.batches_spec().len(),
                forall|k: int|
                    0 <= k < old(self).batches_spec().len() ==> 3 * concat_meshes(
                        (#[trigger] old(self).batches_spec()[k]).mesh_data_spec(),
                    ).len() <= usize::MAX,
                forall|k: int| i <= k < self.batches_spec().len() ==> #[trigger] self.batches_spec()[k] == old(self).batches_spec()[k],
                forall|k: int|
                    0 <= k < i ==> {
                        let b0 = old(self).batches_spec()[k];
                        let b1 = #[trigger] self.batches_spec()[k];
                        if b0.needs_update() {
                            &&& !b1.needs_update()
                            &&& b1.vertex_count_spec() == concat_meshes(b0.mesh_data_spec()).len()
                            &&& b1.mesh_data_spec() == b0.mesh_data_spec()
                            &&& b1.status_spec() == b0.status_spec()
                            &&& b1.position_spec() == b0.position_spec()
                        } else {
                            b1 == b0
                        }
                    },
                forall|j: int|
                    0 <= j < updated@.len() ==> (#[trigger] updated@[j]).0 < i
                        && old(self).batches_spec()[updated@[j].0 as int].needs_update()
                        && updated@[j].1@ == concat_meshes(old(self).batches_spec()[updated@[j].0 as int].mesh_data_spec()),
                forall|j1: int, j2: int| 0 <= j1 < j2 < updated@.len() ==> (#[trigger] updated@[j1]).0 < (#[trigger] updated@[j2]).0,
                forall|k: int|
                    0 <= k < i && (#[trigger] old(self).batches_spec()[k]).needs_update() ==> lists_batch(updated@, k),
                highest_vertex_count >= shared_index_vertex_count,
                forall|k: int|
                    0 <= k < i && old(self).batches_spec()[k].needs_update() ==> highest_vertex_count
                        >= (#[trigger] self.batches_spec()[k]).vertex_count_spec(),
                highest_vertex_count == shared_index_vertex_count || exists|k: int|
                    0 <= k < i && old(self).batches_spec()[k].needs_update() && highest_vertex_count
                        == (#[trigger] self.batches_spec()[k]).vertex_count_spec(),
            decreases self.batches_spec().len() - i,
        {
            if self.batches[i].vertex_buffer_needs_updating() {
                let ghost before = self.batches_spec();
                let ghost updated_before = updated@;
                let ghost highest_before = highest_vertex_count;
                let batch_vertices = self.batches[i].update_vertex_buffer();
                let count = self.batches[i].vertex_count();
                if count > highest_vertex_count {
                    highest_vertex_count = count;
                }
                updated.push((i, batch_vertices));
                proof {
                    assert forall|k: int| 0 <= k < self.batches_spec().len() implies (#[trigger] self.batches_spec()[k]).wf() by {
                        if k != i {
                            assert(self.batches_spec()[k] == before[k]);
                        }
                    }
                    assert forall|k: int|
                        0 <= k < old(self).batches_spec().len() && k != i implies #[trigger] self.batches_spec()[k] == before[k] by {}
                    assert forall|k: int|
                        0 <= k < i + 1 && (#[trigger] old(self).batches_spec()[k]).needs_update() implies lists_batch(
                        updated@,
                        k,
                    ) by {
                        if k < i {
                            assert(lists_batch(updated_before, k));
                            let j = choose|j: int| 0 <= j < updated_before.len() && (#[trigger] updated_before[j]).0 == k;
                            assert(updated@[j] == updated_before[j]);
                        } else {
                            assert(updated@[updated@.len() - 1].0 == k);
                        }
                    }
                    assert forall|j: int| 0 <= j < updated@.len() implies (#[trigger] updated@[j]).0 < i + 1
                        && old(self).batches_spec()[updated@[j].0 as int].needs_update()
                        && updated@[j].1@ == concat_meshes(old(self).batches_spec()[updated@[j].0 as int].mesh_data_spec()) by {
                        if j < updated_before.len() {
                            assert(updated@[j] == updated_before[j]);
                        }
                    }
                    assert forall|j1: int, j2: int| 0 <= j1 < j2 < updated@.len() implies (#[trigger] updated@[j1]).0 < (
                    #[trigger] updated@[j2]).0 by {
                        assert(updated@[j1] == updated_before[j1]);
                        if j2 < updated_before.len() {
                            assert(updated@[j2] == updated_before[j2]);
                        }
                    }
                    if highest_vertex_count == count {
                        assert(self.batches_spec()[i as int].vertex_count_spec() == count);
                    } else if highest_vertex_count != shared_index_vertex_count {
                        let k0 = choose|k: int|
                            0 <= k < i && old(self).batches_spec()[k].needs_update() && highest_before
                                == (#[trigger] before[k]).vertex_count_spec();
                        assert(self.batches_spec()[k0] == before[k0]);
                    }
                }
            }
            i = i + 1;
        }
        (updated, highest_vertex_count)
    }

    /// Applies to the batch assigned to the place of chunk `chunk_pos`, if any, the
    /// change `op` of the chunk's slot.
    fn update_slot(&mut self, chunk_pos: &ChunkPosition, op: SlotOp)
        requires
            old(self).wf(),
        ensures
            final(self).wf(),
            slot_changed(*old(self), *final(self), *chunk_pos, op),
    {
        let (batch_pos, chunk_pos_in_batch) = Self::get_batch_pos_and_chunk_pos_in_batch(chunk_pos);
        match self.assigned_index(&batch_pos) {
            Some(index) => {
                let ghost before = self.batches_spec();
                match op {
                    SlotOp::ClearMesh => self.batches[index].clear_mesh_data_for_chunk(&chunk_pos_in_batch),
                    SlotOp::MarkOutdated => self.batches[index].mark_outdated(&chunk_pos_in_batch),
                    SlotOp::MarkSuboptimal => self.batches[index].mark_suboptimal(&chunk_pos_in_batch),
                }
                proof {
                    assert forall|k: int| 0 <= k < self.batches_spec().len() implies (#[trigger] self.batches_spec()[k]).wf() by {
                        if k != index {
                            assert(self.batches_spec()[k] == before[k]);
                        }
                    }
                }
            },
            None => {},
        }
    }

    /// Clear the stored mesh of the chunk at `chunk_pos`, if a batch is assigned to its place
    pub fn clear_mesh_data_for_chunk(&mut self, chunk_pos: &ChunkPosition)
        requires
            old(self).wf(),
        ensures
            final(self).wf(),
            slot_changed(*old(self), *final(self), *chunk_pos, SlotOp::ClearMesh),
    {
        self.update_slot(chunk_pos, SlotOp::ClearMesh);
    }

    /// Mark the mesh of the chunk at `chunk_pos` as outdated, if it exists and a batch is
    /// assigned to its place
    pub fn mark_outdated(&mut self, chunk_pos: &ChunkPosition)
        requires
            old(self).wf(),
        ensures
            final(self).wf(),
            slot_changed(*old(self), *final(self), *chunk_pos, SlotOp::MarkOutdated),
    {
        self.update_slot(chunk_pos, SlotOp::MarkOutdated);
    }

    /// Mark the mesh of the chunk at `chunk_pos` as suboptimal, if it exists, is not
    /// outdated and a batch is assigned to its place
    pub fn mark_suboptimal(&mut self, chunk_pos: &ChunkPosition)
        requires
            old(self).wf(),
        ensures
            final(self).wf(),
            slot_changed(*old(self), *final(self), *chunk_pos, SlotOp::MarkSuboptimal),
    {
        self.update_slot(chunk_pos, SlotOp::MarkSuboptimal);
    }

    /// Size of the grid of chunk batches
    pub fn size(&self) -> (r: Size3)
        ensures
            r == self.size_spec(),
    {
        self.batch_grid_size
    }

    fn compute_batch_grid_size(load_area: &LoadArea) -> (r: Size3)
        ensures
            r == batch_grid_size_spec(load_area.size_spec()),
    {
        let s = load_area.size();
        Size3::new(s.x / CHUNK_BATCH_SIZE + 1, s.y / CHUNK_BATCH_SIZE + 1, s.z / CHUNK_BATCH_SIZE + 1)
    }
}


/// `id` is the task generating the mesh of one of the chunks of `batch`.
pub open spec fn generating_in<V>(batch: ChunkBatch<V>, id: TaskId) -> bool {
    generating_in_prefix(batch.status_spec(), 8, id)
}

/// `id` is the task generating one of the first `n` meshes of `statuses`.
pub open spec fn generating_in_prefix(statuses: Seq<ChunkMeshStatus>, n: int, id: TaskId) -> bool {
    exists|i: int| 0 <= i < n && #[trigger] statuses[i] == ChunkMeshStatus::Generating(id)
}


/// Some entry of `updated` is about batch `k`.
pub open spec fn lists_batch<V>(updated: Seq<(usize, Vec<V>)>, k: int) -> bool {
    exists|j: int| 0 <= j < updated.len() && (#[trigger] updated[j]).0 == k
}

/// The mesh a chunk's slot holds after `mesh` arrives when it held `stored`: the new
/// mesh, unless the stored one was queued later.
pub open spec fn mesh_after<V>(stored: Option<ChunkMeshData<V>>, mesh: ChunkMeshData<V>) -> Option<ChunkMeshData<V>> {
    match stored {
        Some(existing) => if mesh.queued_instant < existing.queued_instant {
            stored
        } else {
            Some(mesh)
        },
        None => Some(mesh),
    }
}

/// Meshes may arrive out of order, but the slot of a chunk ends up holding the mesh
/// queued last: of two meshes queued after the stored one, the later one is kept
/// whichever arrives first.
pub proof fn lemma_latest_mesh_wins<V>(
    stored: Option<ChunkMeshData<V>>,
    earlier: ChunkMeshData<V>,
    later: ChunkMeshData<V>,
)
    requires
        stored matches Some(s) ==> s.queued_instant <= earlier.queued_instant,
        earlier.queued_instant < later.queued_instant,
    ensures
        mesh_after(mesh_after(stored, earlier), later) == Some(later),
        mesh_after(mesh_after(stored, later), earlier) == Some(later),
{
}

/// A change of the slot of one chunk in its batch.
#[derive(Clone, Copy, Debug, PartialEq, Eq, Structural)]
pub enum SlotOp {
    /// Forget the chunk's mesh.
    ClearMesh,
    /// The chunk changed: its mesh, if any, is outdated.
    MarkOutdated,
    /// A neighbour of the chunk was loaded: its mesh, if any and not outdated, can be
    /// improved.
    MarkSuboptimal,
}

/// A mesh status after the chunk changed.
pub open spec fn outdated_spec(st: ChunkMeshStatus) -> ChunkMeshStatus {
    if st is Missing {
        st
    } else {
        ChunkMeshStatus::Outdated
    }
}

/// A mesh status after a neighbour of the chunk was loaded.
pub open spec fn suboptimal_spec(st: ChunkMeshStatus) -> ChunkMeshStatus {
    if st is Missing || st is Outdated {
        st
    } else {
        ChunkMeshStatus::Suboptimal
    }
}

/// `b1` is `b0` with `op` applied to the slot of chunk `c`, if a batch is assigned to
/// its place; else `b1` is `b0`.
pub open spec fn slot_changed<V>(b0: ChunkBatches<V>, b1: ChunkBatches<V>, c: ChunkPosition, op: SlotOp) -> bool {
    let bp = batch_of(c);
    let i = b0.index_of(bp);
    let s = slot_index(pos_in_batch(c));
    let x0 = b0.batches_spec()[i];
    let x1 = b1.batches_spec()[i];
    if b0.assigned(bp) {
        &&& b1.size_spec() == b0.size_spec()
        &&& b1.batches_spec() == b0.batches_spec().update(i, x1)
        &&& x1.position_spec() == x0.position_spec()
        &&& x1.vertex_count_spec() == x0.vertex_count_spec()
        &&& x1.needs_update() == x0.needs_update()
        &&& match op {
            SlotOp::ClearMesh => x1.mesh_data_spec() == x0.mesh_data_spec().update(s, None) && x1.status_spec()
                == x0.status_spec(),
            SlotOp::MarkOutdated => x1.mesh_data_spec() == x0.mesh_data_spec() && x1.status_spec()
                == x0.status_spec().update(s, outdated_spec(x0.status_spec()[s])),
            SlotOp::MarkSuboptimal => x1.mesh_data_spec() == x0.mesh_data_spec() && x1.status_spec()
                == x0.status_spec().update(s, suboptimal_spec(x0.status_spec()[s])),
        }
    } else {
        b1 == b0
    }
}


/// The batch for any place has an index within the grid.
pub proof fn lemma_index_in_range<V>(b: ChunkBatches<V>, p: IVec3)
    requires
        b.wf(),
    ensures
        0 <= b.index_of(p) < b.batches_spec().len(),
{
    let sz = b.size_spec();
    crate::util::size::lemma_flatten_bound(
        sz.x as int,
        sz.y as int,
        sz.z as int,
        (p.x as int) % (sz.x as int),
        (p.y as int) % (sz.y as int),
        (p.z as int) % (sz.z as int),
    );
}

/// The vertices of a prefix of the slots are no more than those of all slots.
proof fn lemma_concat_prefix_len<V>(data: Seq<Option<ChunkMeshData<V>>>, n: int)
    requires
        0 <= n <= data.len(),
    ensures
        concat_meshes(data.subrange(0, n)).len() <= concat_meshes(data).len(),
    decreases data.len() - n,
{
    if n < data.len() {
        lemma_concat_prefix_len(data, n + 1);
        let next = data.subrange(0, n + 1);
        assert(next.drop_last() == data.subrange(0, n));
        assert(concat_meshes(next).len() >= concat_meshes(next.drop_last()).len());
    } else {
        assert(data.subrange(0, n) == data);
    }
}

} // verus!
