//! Terrain rendering: which chunk meshes to request, keep and draw.

pub mod batching;
pub mod meshing;
pub mod visibility_search;

use crate::renderer::terrain::batching::{
    batch_of, batch_grid_size_spec, lemma_index_in_range, pos_in_batch, slot_changed, slot_index, suboptimal_spec, ChunkBatches,
    ChunkMeshStatus, SlotOp, CHUNK_MESH_GENERATION_PRIORITY, CHUNK_MESH_OPTIMIZATION_PRIORITY,
    CHUNK_MESH_UPDATE_PRIORITY,
};
use crate::runtime::tasks::Tasks;
use crate::terrain::chunk::Chunk;
use crate::terrain::event::TerrainEvent;
use crate::terrain::load_area::LoadArea;
use crate::terrain::position_types::ChunkPosition;
use crate::util::vector::IVec3;
use vstd::prelude::*;

verus! {

/// Which chunks the terrain renderer draws.
#[derive(Clone, Copy, Debug, PartialEq, Eq, Structural)]
pub enum TerrainCullMode {
    /// Every loaded chunk
    CullNone,
    /// The loaded chunks within the view frustum
    Frustum,
    /// The chunks found by the visibility search from the camera
    VisibilitySearch,
}

/// The priority class at which to regenerate a mesh in the given state, if it needs it.
pub open spec fn remeshing_priority_spec(status: ChunkMeshStatus) -> Option<i32> {
    match status {
        ChunkMeshStatus::Good | ChunkMeshStatus::Generating(_) => None,
        ChunkMeshStatus::Missing => Some(CHUNK_MESH_GENERATION_PRIORITY),
        ChunkMeshStatus::Outdated => Some(CHUNK_MESH_UPDATE_PRIORITY),
        ChunkMeshStatus::Suboptimal => Some(CHUNK_MESH_OPTIMIZATION_PRIORITY),
    }
}

/// The six chunks sharing a face with `c`.
pub open spec fn neighbours_spec(c: ChunkPosition) -> Seq<ChunkPosition> {
    seq![
        ChunkPosition(crate::util::vector::IVec3 { x: (c.0.x + 1) as i32, y: c.0.y, z: c.0.z }),
        ChunkPosition(crate::util::vector::IVec3 { x: c.0.x, y: (c.0.y + 1) as i32, z: c.0.z }),
        ChunkPosition(crate::util::vector::IVec3 { x: c.0.x, y: c.0.y, z: (c.0.z + 1) as i32 }),
        ChunkPosition(crate::util::vector::IVec3 { x: (c.0.x - 1) as i32, y: c.0.y, z: c.0.z }),
        ChunkPosition(crate::util::vector::IVec3 { x: c.0.x, y: (c.0.y - 1) as i32, z: c.0.z }),
        ChunkPosition(crate::util::vector::IVec3 { x: c.0.x, y: c.0.y, z: (c.0.z - 1) as i32 }),
    ]
}

/// The batches drawn for the first `n` chunks of `queue`: the batch of each chunk in
/// turn, if one is assigned to it, it has vertices, it was not drawn in frame
/// `frame_index` before and it is not listed yet.
pub open spec fn draw_list<V>(
    batches: ChunkBatches<V>,
    frame_last_drawn: Seq<usize>,
    frame_index: usize,
    queue: Seq<ChunkPosition>,
    n: int,
) -> Seq<usize>
    decreases n,
{
    if n <= 0 {
        Seq::empty()
    } else {
        let prev = draw_list(batches, frame_last_drawn, frame_index, queue, n - 1);
        let b = batch_of(queue[n - 1]);
        let i = batches.index_of(b);
        if frame_last_drawn[i] != frame_index && batches.assigned(b) && batches.batches_spec()[i].vertex_count_spec()
            != 0 && !prev.contains(i as usize) {
            prev.push(i as usize)
        } else {
            prev
        }
    }
}

/// Responsible for deciding which terrain meshes to generate, keep and draw; the
/// graphics device's buffers and pipelines are kept by the caller
pub struct TerrainRenderer<V> {
    /// Responsible for managing chunk batches
    pub chunk_batches: ChunkBatches<V>,
    /// Frame index when each chunk batch was last rendered, to prevent them from being rendered
    /// multiple times per frame
    pub frame_last_drawn: Vec<usize>,
    /// Cull mode to use
    pub cull_mode: TerrainCullMode,
}

impl<V> TerrainRenderer<V> {
    /// The batches are well-formed, with one frame index per batch.
    pub open spec fn wf(&self) -> bool {
        &&& self.chunk_batches.wf()
        &&& self.frame_last_drawn@.len() == self.chunk_batches.batches_spec().len()
    }

    /// A renderer for the terrain around `load_area`, with batches placed as
    /// [`ChunkBatches::new`] places them and none drawn yet.
    pub fn new(load_area: &LoadArea, cull_mode: TerrainCullMode) -> (r: Self)
        requires
            batch_grid_size_spec(load_area.size_spec()).wf(),
        ensures
            r.wf(),
            r.cull_mode == cull_mode,
            r.chunk_batches.size_spec() == batch_grid_size_spec(load_area.size_spec()),
            forall|i: int| 0 <= i < r.frame_last_drawn@.len() ==> #[trigger] r.frame_last_drawn@[i] == 0,
            // every batch starts out empty
            forall|i: int|
                0 <= i < r.chunk_batches.batches_spec().len() ==> (#[trigger] r.chunk_batches.batches_spec()[i]).is_empty_at(
                    IVec3 {
                        x: (i / (r.chunk_batches.size_spec().y * r.chunk_batches.size_spec().z)) as i32,
                        y: ((i / r.chunk_batches.size_spec().z as int) % r.chunk_batches.size_spec().y as int) as i32,
                        z: (i % r.chunk_batches.size_spec().z as int) as i32,
                    },
                ),
    {
        let chunk_batches = ChunkBatches::new(load_area);
        let n = chunk_batches.size().product();
        let mut frame_last_drawn: Vec<usize> = Vec::new();
        while frame_last_drawn.len() < n
            invariant
                frame_last_drawn@.len() <= n,
                forall|i: int| 0 <= i < frame_last_drawn@.len() ==> #[trigger] frame_last_drawn@[i] == 0,
            decreases n - frame_last_drawn@.len(),
        {
            frame_last_drawn.push(0);
        }
        TerrainRenderer { chunk_batches, frame_last_drawn, cull_mode }
    }

    /// React to a terrain event: mark the meshes that it makes suboptimal or outdated,
    /// and drop the meshes of unloaded chunks
    pub fn process_event(&mut self, event: &TerrainEvent)
        requires
            old(self).wf(),
            *event matches TerrainEvent::ChunkLoaded(c) ==> interior(c),
        ensures
            final(self).wf(),
            final(self).frame_last_drawn == old(self).frame_last_drawn,
            final(self).cull_mode == old(self).cull_mode,
            match *event {
                TerrainEvent::ChunkLoaded(c) => neighbours_marked(old(self).chunk_batches, final(self).chunk_batches, c, 6),
                TerrainEvent::ChunkUnloaded(c) => slot_changed(
                    old(self).chunk_batches,
                    final(self).chunk_batches,
                    c,
                    SlotOp::ClearMesh,
                ),
                TerrainEvent::BlockModified(c, _) => slot_changed(
                    old(self).chunk_batches,
                    final(self).chunk_batches,
                    c,
                    SlotOp::MarkOutdated,
                ),
                TerrainEvent::ChunkLightUpdate(c) => slot_changed(
                    old(self).chunk_batches,
                    final(self).chunk_batches,
                    c,
                    SlotOp::MarkOutdated,
                ),
            },
    {
        match event {
            TerrainEvent::ChunkLoaded(chunk_pos) => self.chunk_loaded(*chunk_pos),
            TerrainEvent::ChunkUnloaded(chunk_pos) => self.chunk_unloaded(*chunk_pos),
            TerrainEvent::BlockModified(chunk_pos, _) => self.chunk_modified(chunk_pos),
            // the mesh holds the light values, so new light outdates it
            TerrainEvent::ChunkLightUpdate(chunk_pos) => self.chunk_modified(chunk_pos),
        }
    }

    /// Called when a chunk has been loaded to note that its neighbours' meshes can be optimized
    /// NB: this does not queue the chunk for mesh generation: its mesh will only be generated
    /// after it is requested
    fn chunk_loaded(&mut self, chunk_pos: ChunkPosition)
        requires
            old(self).wf(),
            interior(chunk_pos),
        ensures
            final(self).wf(),
            final(self).frame_last_drawn == old(self).frame_last_drawn,
            final(self).cull_mode == old(self).cull_mode,
            neighbours_marked(old(self).chunk_batches, final(self).chunk_batches, chunk_pos, 6),
    {
        let neighbour_positions = [
            chunk_pos.plus(ChunkPosition::new(1, 0, 0)),
            chunk_pos.plus(ChunkPosition::new(0, 1, 0)),
            chunk_pos.plus(ChunkPosition::new(0, 0, 1)),
            chunk_pos.plus(ChunkPosition::new(-1, 0, 0)),
            chunk_pos.plus(ChunkPosition::new(0, -1, 0)),
            chunk_pos.plus(ChunkPosition::new(0, 0, -1)),
        ];
        assert(neighbour_positions@ == neighbours_spec(chunk_pos));
        let ghost b0 = self.chunk_batches;
        let mut k: usize = 0;
        while k < 6
            invariant
                self.wf(),
                self.frame_last_drawn == old(self).frame_last_drawn,
                self.cull_mode == old(self).cull_mode,
                b0 == old(self).chunk_batches,
                b0.wf(),
                neighbour_positions@ == neighbours_spec(chunk_pos),
                k <= 6,
                neighbours_marked(b0, self.chunk_batches, chunk_pos, k as int),
            decreases 6 - k,
        {
            let ghost before = self.chunk_batches;
            self.chunk_batches.mark_suboptimal(&neighbour_positions[k]);
            proof {
                lemma_mark_neighbour(b0, before, self.chunk_batches, chunk_pos, k as int);
            }
            k = k + 1;
        }
    }

    /// Called when a chunk has been unloaded to remove its mesh from the batch containing
    /// it
    fn chunk_unloaded(&mut self, chunk_pos: ChunkPosition)
        requires
            old(self).wf(),
        ensures
            final(self).wf(),
            final(self).frame_last_drawn == old(self).frame_last_drawn,
            final(self).cull_mode == old(self).cull_mode,
            slot_changed(old(self).chunk_batches, final(self).chunk_batches, chunk_pos, SlotOp::ClearMesh),
    {
        self.chunk_batches.clear_mesh_data_for_chunk(&chunk_pos);
    }

    /// Called when a block in a chunk has been modified
    fn chunk_modified(&mut self, chunk_pos: &ChunkPosition)
        requires
            old(self).wf(),
        ensures
            final(self).wf(),
            final(self).frame_last_drawn == old(self).frame_last_drawn,
            final(self).cull_mode == old(self).cull_mode,
            slot_changed(old(self).chunk_batches, final(self).chunk_batches, *chunk_pos, SlotOp::MarkOutdated),
    {
        self.chunk_batches.mark_outdated(chunk_pos);
    }

    /// Request any necessary mesh updates for the given chunk: its batch is made to
    /// serve its place, and the priority class at which its mesh is to be regenerated
    /// is returned, if it needs one
    pub fn request_mesh_updates_for_chunk<T>(&mut self, chunk: &Chunk, tasks: &mut Tasks<T>) -> (r: Option<i32>)
        requires
            old(self).wf(),
            old(tasks).wf(),
        ensures
            final(self).wf(),
            final(tasks).wf(),
            final(self).frame_last_drawn == old(self).frame_last_drawn,
            final(self).chunk_batches.size_spec() == old(self).chunk_batches.size_spec(),
            final(self).chunk_batches.assigned(batch_of(chunk.position_spec())),
            old(self).chunk_batches.assigned(batch_of(chunk.position_spec())) ==> *final(self) == *old(self) && *final(tasks) == *old(tasks),
            r == remeshing_priority_spec(
                final(self).chunk_batches.batches_spec()[final(self).chunk_batches.index_of(
                    batch_of(chunk.position_spec()),
                )].status_spec()[slot_index(pos_in_batch(chunk.position_spec()))],
            ),
    {
        let (batch_pos, chunk_pos_in_batch) = ChunkBatches::<V>::get_batch_pos_and_chunk_pos_in_batch(&chunk.position());
        let index = self.chunk_batches.get_or_repurpose_batch(tasks, &batch_pos);
        proof {
            lemma_index_in_range(self.chunk_batches, batch_pos);
        }
        let batch = self.chunk_batches.get_batch(&batch_pos).unwrap();
        match batch.get_chunk_mesh_status(&chunk_pos_in_batch) {
            ChunkMeshStatus::Good | ChunkMeshStatus::Generating(_) => None,
            ChunkMeshStatus::Missing => Some(CHUNK_MESH_GENERATION_PRIORITY),
            ChunkMeshStatus::Outdated => Some(CHUNK_MESH_UPDATE_PRIORITY),
            ChunkMeshStatus::Suboptimal => Some(CHUNK_MESH_OPTIMIZATION_PRIORITY),
        }
    }

    /// The chunk batches to draw this frame, in order, for the chunks of `render_queue`:
    /// the batch of each chunk in turn, unless none is assigned to its place, it has no
    /// vertices or it was drawn already in frame `frame_index`; each batch listed is
    /// noted as drawn in that frame
    pub fn select_batches_to_draw(&mut self, render_queue: &[ChunkPosition], frame_index: usize) -> (r: Vec<usize>)
        requires
            old(self).wf(),
        ensures
            final(self).wf(),
            final(self).chunk_batches == old(self).chunk_batches,
            final(self).cull_mode == old(self).cull_mode,
            r@ == draw_list(
                old(self).chunk_batches,
                old(self).frame_last_drawn@,
                frame_index,
                render_queue@,
                render_queue@.len() as int,
            ),
            forall|i: int|
                0 <= i < final(self).frame_last_drawn@.len() ==> #[trigger] final(self).frame_last_drawn@[i] == if r@.contains(
                    i as usize,
                ) {
                    frame_index
                } else {
                    old(self).frame_last_drawn@[i]
                },
    {
        let ghost fld0 = self.frame_last_drawn@;
        let mut draw: Vec<usize> = Vec::new();
        let mut k: usize = 0;
        while k < render_queue.len()
            invariant
                self.wf(),
                self.chunk_batches == old(self).chunk_batches,
                self.cull_mode == old(self).cull_mode,
                fld0 == old(self).frame_last_drawn@,
                fld0.len() == self.frame_last_drawn@.len(),
                k <= render_queue@.len(),
                draw@ == draw_list(self.chunk_batches, fld0, frame_index, render_queue@, k as int),
                forall|j: int| 0 <= j < draw@.len() ==> (#[trigger] draw@[j]) < fld0.len(),
                forall|i: int|
                    0 <= i < self.frame_last_drawn@.len() ==> #[trigger] self.frame_last_drawn@[i] == if draw@.contains(
                        i as usize,
                    ) {
                        frame_index
                    } else {
                        fld0[i]
                    },
            decreases render_queue@.len() - k,
        {
            let (batch_pos, _) = ChunkBatches::<V>::get_batch_pos_and_chunk_pos_in_batch(&render_queue[k]);
            let batch_index = self.chunk_batches.get_batch_index(&batch_pos);
            let ghost prev = draw@;
            proof {
                assert(self.frame_last_drawn@[batch_index as int] == frame_index <==> (fld0[batch_index as int] == frame_index
                    || prev.contains(batch_index)));
            }
            if self.frame_last_drawn[batch_index] == frame_index {
                // don't draw the same chunk batch twice
            } else {
                match self.chunk_batches.get_batch(&batch_pos) {
                    Some(batch) => {
                        if batch.vertex_count() != 0 {
                            self.frame_last_drawn.set(batch_index, frame_index);
                            draw.push(batch_index);
                            proof {
                                assert forall|j: int| 0 <= j < draw@.len() implies (#[trigger] draw@[j]) < fld0.len() by {
                                    if j < prev.len() {
                                        assert(draw@[j] == prev[j]);
                                    }
                                }
                                assert forall|i: int| 0 <= i < self.frame_last_drawn@.len() implies #[trigger] self.frame_last_drawn@[i]
                                    == if draw@.contains(i as usize) {
                                    frame_index
                                } else {
                                    fld0[i]
                                } by {
                                    if i != batch_index {
                                        if draw@.contains(i as usize) {
                                            let j = choose|j: int| 0 <= j < draw@.len() && draw@[j] == i as usize;
                                            assert(j < prev.len());
                                            assert(prev[j] == i as usize);
                                        }
                                        if prev.contains(i as usize) {
                                            let j = choose|j: int| 0 <= j < prev.len() && prev[j] == i as usize;
                                            assert(draw@[j] == i as usize);
                                        }
                                    } else {
                                        assert(draw@[prev.len() as int] == batch_index);
                                    }
                                }
                            }
                        }
                    },
                    None => {},
                }
            }
            k = k + 1;
        }
        proof {
            assert(render_queue@.subrange(0, render_queue@.len() as int) == render_queue@);
        }
        draw
    }
}

/// `c` is not on the edge of the range of chunk coordinates, so all its neighbours exist.
pub open spec fn interior(c: ChunkPosition) -> bool {
    &&& i32::MIN < c.0.x < i32::MAX
    &&& i32::MIN < c.0.y < i32::MAX
    &&& i32::MIN < c.0.z < i32::MAX
}

/// Slot `s` of batch `i` is that of the neighbour `n` of a loaded chunk, and a batch is
/// assigned to the place of `n`.
pub open spec fn neighbour_hits<V>(b0: ChunkBatches<V>, n: ChunkPosition, i: int, s: int) -> bool {
    &&& b0.assigned(batch_of(n))
    &&& b0.index_of(batch_of(n)) == i
    &&& slot_index(pos_in_batch(n)) == s
}

/// Only a mesh that is up to date or being generated asks for no regeneration; every
/// other mesh is regenerated: a missing one at the generation priority, an outdated one
/// at the update priority and a suboptimal one at the optimisation priority.
pub proof fn lemma_only_settled_meshes_wait(st: ChunkMeshStatus)
    ensures
        remeshing_priority_spec(st) is None <==> (st is Good || st is Generating),
        st is Suboptimal ==> remeshing_priority_spec(st) == Some(CHUNK_MESH_OPTIMIZATION_PRIORITY),
        st is Missing ==> remeshing_priority_spec(st) == Some(CHUNK_MESH_GENERATION_PRIORITY),
        st is Outdated ==> remeshing_priority_spec(st) == Some(CHUNK_MESH_UPDATE_PRIORITY),
{
}

/// The status of the mesh of chunk `n` in `b`.
pub open spec fn mesh_status_of<V>(b: ChunkBatches<V>, n: ChunkPosition) -> ChunkMeshStatus {
    b.batches_spec()[b.index_of(batch_of(n))].status_spec()[slot_index(pos_in_batch(n))]
}

/// Loading a chunk gets the up-to-date meshes of its neighbours regenerated: after the
/// load is processed, a neighbour whose mesh was good asks for regeneration at the
/// optimisation priority, so that the faces the new chunk hides are dropped.
pub proof fn lemma_loaded_neighbour_gets_mesh_optimised<V>(
    b0: ChunkBatches<V>,
    b1: ChunkBatches<V>,
    c: ChunkPosition,
    j: int,
)
    requires
        b0.wf(),
        neighbours_marked(b0, b1, c, 6),
        0 <= j < 6,
        b0.assigned(batch_of(neighbours_spec(c)[j])),
        mesh_status_of(b0, neighbours_spec(c)[j]) is Good,
    ensures
        remeshing_priority_spec(mesh_status_of(b1, neighbours_spec(c)[j])) == Some(CHUNK_MESH_OPTIMIZATION_PRIORITY),
{
    let n = neighbours_spec(c)[j];
    let i = b0.index_of(batch_of(n));
    let s = slot_index(pos_in_batch(n));
    crate::renderer::terrain::batching::lemma_index_in_range(b0, batch_of(n));
    assert(0 <= s < 8);
    assert(neighbour_hits(b0, neighbours_spec(c)[j], i, s));
    assert(b1.batches_spec()[i].status_spec()[s] == suboptimal_spec(b0.batches_spec()[i].status_spec()[s]));
}

/// `b1` is `b0` with the meshes of the first `k` neighbours of `c` marked suboptimal.
pub open spec fn neighbours_marked<V>(b0: ChunkBatches<V>, b1: ChunkBatches<V>, c: ChunkPosition, k: int) -> bool {
    &&& b1.wf()
    &&& b1.size_spec() == b0.size_spec()
    &&& b1.batches_spec().len() == b0.batches_spec().len()
    &&& forall|i: int|
        0 <= i < b0.batches_spec().len() ==> {
            let x0 = b0.batches_spec()[i];
            let x1 = #[trigger] b1.batches_spec()[i];
            &&& x1.position_spec() == x0.position_spec()
            &&& x1.vertex_count_spec() == x0.vertex_count_spec()
            &&& x1.needs_update() == x0.needs_update()
            &&& x1.mesh_data_spec() == x0.mesh_data_spec()
            &&& x1.status_spec().len() == x0.status_spec().len()
            &&& forall|s: int|
                0 <= s < 8 ==> #[trigger] x1.status_spec()[s] == if exists|j: int|
                    0 <= j < k && #[trigger] neighbour_hits(b0, neighbours_spec(c)[j], i, s) {
                    suboptimal_spec(x0.status_spec()[s])
                } else {
                    x0.status_spec()[s]
                }
        }
}

/// Marking the next neighbour keeps [`neighbours_marked`].
proof fn lemma_mark_neighbour<V>(b0: ChunkBatches<V>, b1: ChunkBatches<V>, b2: ChunkBatches<V>, c: ChunkPosition, k: int)
    requires
        b0.wf(),
        0 <= k < 6,
        neighbours_marked(b0, b1, c, k),
        slot_changed(b1, b2, neighbours_spec(c)[k], SlotOp::MarkSuboptimal),
        b2.wf(),
    ensures
        neighbours_marked(b0, b2, c, k + 1),
{
    let n = neighbours_spec(c)[k];
    let bp = batch_of(n);
    assert(b1.index_of(bp) == b0.index_of(bp));
    lemma_index_in_range(b0, bp);
    let i0 = b0.index_of(bp);
    assert(b1.batches_spec()[i0].position_spec() == b0.batches_spec()[i0].position_spec());
    assert(b1.assigned(bp) == b0.assigned(bp));
    assert forall|i: int| 0 <= i < b0.batches_spec().len() implies {
        let x0 = b0.batches_spec()[i];
        let x1 = #[trigger] b2.batches_spec()[i];
        &&& x1.position_spec() == x0.position_spec()
        &&& x1.vertex_count_spec() == x0.vertex_count_spec()
        &&& x1.needs_update() == x0.needs_update()
        &&& x1.mesh_data_spec() == x0.mesh_data_spec()
        &&& x1.status_spec().len() == x0.status_spec().len()
        &&& forall|s: int|
            0 <= s < 8 ==> #[trigger] x1.status_spec()[s] == if exists|j: int|
                0 <= j < k + 1 && #[trigger] neighbour_hits(b0, neighbours_spec(c)[j], i, s) {
                suboptimal_spec(x0.status_spec()[s])
            } else {
                x0.status_spec()[s]
            }
    } by {
        let x0 = b0.batches_spec()[i];
        let xm = b1.batches_spec()[i];
        let x1 = b2.batches_spec()[i];
        assert forall|s: int| 0 <= s < 8 implies #[trigger] x1.status_spec()[s] == if exists|j: int|
            0 <= j < k + 1 && #[trigger] neighbour_hits(b0, neighbours_spec(c)[j], i, s) {
            suboptimal_spec(x0.status_spec()[s])
        } else {
            x0.status_spec()[s]
        } by {
            let before = exists|j: int| 0 <= j < k && #[trigger] neighbour_hits(b0, neighbours_spec(c)[j], i, s);
            assert(xm.status_spec()[s] == if before {
                suboptimal_spec(x0.status_spec()[s])
            } else {
                x0.status_spec()[s]
            });
            if neighbour_hits(b0, n, i, s) {
                assert(x1.status_spec()[s] == suboptimal_spec(xm.status_spec()[s]));
            } else {
                assert(x1.status_spec()[s] == xm.status_spec()[s]);
                if exists|j: int| 0 <= j < k + 1 && #[trigger] neighbour_hits(b0, neighbours_spec(c)[j], i, s) {
                    let j = choose|j: int| 0 <= j < k + 1 && #[trigger] neighbour_hits(b0, neighbours_spec(c)[j], i, s);
                    assert(j != k);
                }
            }
        }
    }
}

} // verus!
