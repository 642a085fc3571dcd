//! Chunks: fixed-size cubes of blocks with their light and connectivity data.

pub mod connections;
pub mod light_store;
pub mod side;
pub mod simple_storage;
pub mod storage;

use crate::terrain::block::{block_is_opaque_spec, get_block, BlockId};
use crate::terrain::chunk::connections::{
    bit_set, connection_index_spec, faces_connected, ChunkConnections,
};
use crate::terrain::chunk::light_store::ChunkLightStore;
use crate::terrain::chunk::side::ChunkSideLight;
use crate::terrain::chunk::storage::ChunkBlockStorage;
use crate::terrain::lighting::emitted_light::{
    get_initial_emitted_light_queue, initial_emitted_queue, propagate_emitted_light,
    propagate_emitted_light_shadow, queue_wf, shadow_queue_wf, EmittedLight, ch, emitted_seq, cell_ok,
    less_mask_spec, emitted_accounted, lemma_accounted_through_shadow, shadow_from, emitter_steps, sides_steps,
    repair_ok, repair_in_reach, within_queue_reach, emitted_out_ok, shadow_out_ok, lemma_channels, decrement_spec,
    emitted_sent, shadow_sent, sent_channel_ok,
};
use crate::terrain::lighting::skylight::{
    get_initial_skylight_queue, initial_skylight_queue, propagate_skylight, sky_queue_wf,
    sky_seq, sky_cell_ok, Skylight, sky_supported, sky_sides_steps, sky_out_ok, sky_within_reach,
    sky_sent, sky_dim,
};
use crate::terrain::lighting::{LightPropagationStep, LightStore, LightUpdate, ShadowPropagationStep};
use crate::terrain::position_types::{ChunkPosition, LocalBlockPosition};
use crate::util::face::FaceIndex;
use std::collections::VecDeque;
use vstd::prelude::*;

verus! {

/// Length of a chunk's side, in blocks.
pub const CHUNK_SIZE: usize = 32;

/// Base-2 logarithm of `CHUNK_SIZE`.
pub const CHUNK_SIZE_LOG2: usize = 5;

/// Number of blocks on one side of a chunk.
pub const CHUNK_SIZE_SQUARED: usize = 1024;

/// Number of blocks in a chunk.
pub const CHUNK_SIZE_CUBED: usize = 32768;

/// `CHUNK_SIZE` as a `u32`.
pub const CHUNK_SIZE_U32: u32 = 32;

/// `CHUNK_SIZE` as an `i32`.
pub const CHUNK_SIZE_I32: i32 = 32;

} // verus!

verus! {

/// A cube of blocks with its light values, the light and shadow steps still to be
/// propagated through it, its position in the world and its visibility graph.
#[derive(Clone, Debug)]
pub struct Chunk {
    block_store: ChunkBlockStorage,
    light_store: ChunkLightStore,
    emitted_light_queue: VecDeque<LightPropagationStep<EmittedLight>>,
    emitted_light_shadow_queue: VecDeque<ShadowPropagationStep>,
    skylight_queue: VecDeque<LightPropagationStep<Skylight>>,
    position: ChunkPosition,
    connections: ChunkConnections,
}

impl Chunk {
    /// The block data, light data and pending steps are consistent.
    pub closed spec fn wf(&self) -> bool {
        &&& self.block_store.wf()
        &&& self.block_store.all_registered()
        &&& self.light_store.wf()
        &&& queue_wf(self.emitted_light_queue@)
        &&& shadow_queue_wf(self.emitted_light_shadow_queue@)
        &&& sky_queue_wf(self.skylight_queue@)
    }

    /// The block storage.
    pub closed spec fn blocks_spec(&self) -> ChunkBlockStorage {
        self.block_store
    }

    /// The light storage.
    pub closed spec fn light_spec(&self) -> ChunkLightStore {
        self.light_store
    }

    /// Pending emitted light steps.
    pub closed spec fn emitted_queue_spec(&self) -> Seq<LightPropagationStep<EmittedLight>> {
        self.emitted_light_queue@
    }

    /// Pending emitted light shadow steps.
    pub closed spec fn shadow_queue_spec(&self) -> Seq<ShadowPropagationStep> {
        self.emitted_light_shadow_queue@
    }

    /// Pending skylight steps.
    pub closed spec fn skylight_queue_spec(&self) -> Seq<LightPropagationStep<Skylight>> {
        self.skylight_queue@
    }

    /// The chunk's position in the world.
    pub closed spec fn position_spec(&self) -> ChunkPosition {
        self.position
    }

    /// The visibility graph computed when the chunk was created.
    pub closed spec fn connections_spec(&self) -> ChunkConnections {
        self.connections
    }

    /// The blocks of the chunk, by array index.
    pub open spec fn block_seq(&self) -> Seq<BlockId> {
        Seq::new(32768, |i: int| self.blocks_spec().block_at(i))
    }

    /// A chunk at `position` holding `blocks`, ordered by array index, with no light
    /// data and nothing to propagate.
    pub fn new(position: ChunkPosition, blocks: &[BlockId]) -> (r: Self)
        requires
            blocks@.len() == 32768,
            forall|i: int| 0 <= i < 32768 ==> (#[trigger] blocks@[i]).0 < 5,
        ensures
            r.wf(),
            forall|i: int| 0 <= i < 32768 ==> r.blocks_spec().block_at(i) == blocks@[i],
            r.light_spec() == ChunkLightStore::AwaitingLightData,
            r.emitted_queue_spec().len() == 0,
            r.shadow_queue_spec().len() == 0,
            r.skylight_queue_spec().len() == 0,
            r.position_spec() == position,
            forall|a: int, b: int|
                0 <= a < 6 && 0 <= b < 6 ==> (bit_set(
                    r.connections_spec().0,
                    connection_index_spec(a, b),
                ) <==> (a != b && faces_connected(blocks@, a, b))),
    {
        // this function is called from a parallel thread so it's OK to perform intensive tasks
        // here
        let mut block_vec: Vec<BlockId> = Vec::new();
        let mut i: usize = 0;
        while i < blocks.len()
            invariant
                i <= blocks@.len(),
                block_vec@ == blocks@.subrange(0, i as int),
            decreases blocks@.len() - i,
        {
            block_vec.push(blocks[i]);
            i = i + 1;
        }
        proof {
            assert(block_vec@ =~= blocks@);
        }
        let block_store = ChunkBlockStorage::new(block_vec);
        let connections = ChunkConnections::compute(blocks);
        let light_store = ChunkLightStore::new();
        let emitted_light_queue = VecDeque::new();
        let emitted_light_shadow_queue = VecDeque::new();
        let skylight_queue = VecDeque::new();
        proof {
            assert forall|a: int, b: int|
                0 <= a < 6 && 0 <= b < 6 implies (bit_set(connections.0, connection_index_spec(a, b))
                <==> (a != b && faces_connected(blocks@, a, b))) by {
                crate::terrain::chunk::connections::lemma_connections_law(blocks@, connections, a, b);
            }
        }

        Self {
            block_store,
            light_store,
            emitted_light_queue,
            emitted_light_shadow_queue,
            skylight_queue,
            position,
            connections,
        }
    }

    /// Returns the underlying block storage
    pub fn block_store(&self) -> (r: &ChunkBlockStorage)
        ensures
            *r == self.blocks_spec(),
    {
        &self.block_store
    }

    /// Returns the underlying light storage
    pub fn light_store(&self) -> (r: &ChunkLightStore)
        ensures
            *r == self.light_spec(),
    {
        &self.light_store
    }

    /// Returns the block ID at the given position.
    pub fn get_block(&self, pos: LocalBlockPosition) -> (r: BlockId)
        requires
            self.wf(),
            pos.is_valid(),
        ensures
            r == self.blocks_spec().block_at(pos.index()),
            r.0 < 5,
    {
        proof {
            crate::terrain::position_types::lemma_array_index_roundtrip(pos);
        }
        self.block_store.get_block(pos)
    }

    /// Update the block ID at the given position; a changed block casts a shadow of
    /// full depth from its position, to be propagated by the next lighting update.
    pub fn set_block(&mut self, pos: LocalBlockPosition, new_id: BlockId)
        requires
            old(self).wf(),
            pos.is_valid(),
            new_id.0 < 5,
        ensures
            final(self).wf(),
            final(self).blocks_spec().block_at(pos.index()) == new_id,
            forall|i: int|
                0 <= i < 32768 && i != pos.index() ==> final(self).blocks_spec().block_at(i) == old(self).blocks_spec().block_at(i),
            old(self).blocks_spec().block_at(pos.index()) == new_id ==> *final(self) == *old(self),
            old(self).blocks_spec().block_at(pos.index()) != new_id ==> final(self).shadow_queue_spec()
                == old(self).shadow_queue_spec().push(
                ShadowPropagationStep { position: pos, depth: EmittedLight::MAX_VALUE },
            ),
            final(self).light_spec() == old(self).light_spec(),
            final(self).emitted_queue_spec() == old(self).emitted_queue_spec(),
            final(self).skylight_queue_spec() == old(self).skylight_queue_spec(),
            final(self).position_spec() == old(self).position_spec(),
            final(self).connections_spec() == old(self).connections_spec(),
    {
        let old_id = self.block_store.get_block(pos);
        if new_id.0 == old_id.0 {
            return ;
        }
        self.block_store.set_block(pos, new_id);

        // Update emitted light shadow propagation queue
        self.emitted_light_shadow_queue.push_back(
            ShadowPropagationStep { position: pos, depth: EmittedLight::MAX_VALUE },
        );
        proof {
            crate::terrain::position_types::lemma_array_index_roundtrip(pos);
            assert forall|i: int| 0 <= i < 32768 implies (#[trigger] self.block_store.block_at(i)).0 < 5 by {
                if i != pos.index() {
                    assert(self.block_store.block_at(i) == old(self).block_store.block_at(i));
                }
            }
        }
    }

    /// Returns this chunk's position
    pub fn position(&self) -> (r: ChunkPosition)
        ensures
            r == self.position_spec(),
    {
        self.position
    }

    /// Returns the computed connections for this chunk
    pub fn connections(&self) -> (r: ChunkConnections)
        ensures
            r == self.connections_spec(),
    {
        self.connections
    }

    /// True if the chunk has pending light updates
    pub fn requires_light_updates(&self) -> (r: bool)
        ensures
            r == (self.emitted_queue_spec().len() != 0 || self.shadow_queue_spec().len() != 0
                || self.skylight_queue_spec().len() != 0),
    {
        self.emitted_light_queue.len() != 0 || self.emitted_light_shadow_queue.len() != 0
            || self.skylight_queue.len() != 0
    }

    /// Setup the emitted light queue for a new chunk
    pub fn fill_emitted_light_queue(&mut self, surrounding_sides_light: &[Option<ChunkSideLight>])
        requires
            old(self).wf(),
            surrounding_sides_light@.len() <= 6,
            forall|s: int|
                0 <= s < surrounding_sides_light@.len() ==> ((#[trigger] surrounding_sides_light@[s]) matches Some(
                    side,
                ) ==> side.wf()),
        ensures
            final(self).wf(),
            initial_emitted_queue(old(self).block_seq(), surrounding_sides_light@, final(self).emitted_queue_spec()),
            final(self).emitted_queue_spec() == emitter_steps(old(self).block_seq(), 32768) + sides_steps(
                old(self).block_seq(),
                surrounding_sides_light@,
                surrounding_sides_light@.len(),
            ),
            final(self).blocks_spec() == old(self).blocks_spec(),
            final(self).light_spec() == old(self).light_spec(),
            final(self).shadow_queue_spec() == old(self).shadow_queue_spec(),
            final(self).skylight_queue_spec() == old(self).skylight_queue_spec(),
            final(self).position_spec() == old(self).position_spec(),
            final(self).connections_spec() == old(self).connections_spec(),
    {
        let blocks = self.block_store.as_block_array();
        proof {
            assert(blocks@ =~= old(self).block_seq());
        }
        self.emitted_light_queue = get_initial_emitted_light_queue(blocks.as_slice(), surrounding_sides_light);
    }

    /// Setup the skylight queue for a new chunk
    pub fn fill_skylight_queue(&mut self, surrounding_sides_light: &[Option<ChunkSideLight>])
        requires
            old(self).wf(),
            surrounding_sides_light@.len() <= 6,
            forall|s: int|
                0 <= s < surrounding_sides_light@.len() ==> ((#[trigger] surrounding_sides_light@[s]) matches Some(
                    side,
                ) ==> side.wf()),
        ensures
            final(self).wf(),
            initial_skylight_queue(old(self).block_seq(), surrounding_sides_light@, final(self).skylight_queue_spec()),
            final(self).skylight_queue_spec() == sky_sides_steps(old(self).block_seq(), surrounding_sides_light@, surrounding_sides_light@.len()),
            final(self).blocks_spec() == old(self).blocks_spec(),
            final(self).light_spec() == old(self).light_spec(),
            final(self).emitted_queue_spec() == old(self).emitted_queue_spec(),
            final(self).shadow_queue_spec() == old(self).shadow_queue_spec(),
            final(self).position_spec() == old(self).position_spec(),
            final(self).connections_spec() == old(self).connections_spec(),
    {
        let blocks = self.block_store.as_block_array();
        proof {
            assert(blocks@ =~= old(self).block_seq());
        }
        self.skylight_queue = get_initial_skylight_queue(blocks.as_slice(), surrounding_sides_light);
    }

    /// A light or shadow step for this chunk that is well formed.
    pub open spec fn light_update_wf(light_update: LightUpdate) -> bool {
        match light_update {
            LightUpdate::EmittedLight(step) => step.position.is_valid() && step.light@ < 0x1000,
            LightUpdate::EmittedLightShadow(step) => step.position.is_valid(),
            LightUpdate::Skylight(step) => step.position.is_valid() && step.light.0 < 16,
        }
    }

    /// Add the emitted light value to the lighting queue, if it is greater
    /// than the existing light value and can pass into the chunk
    pub fn inform_light_update_from_neighbouring_chunk(
        &mut self,
        light_update: LightUpdate,
        neighbour_index: FaceIndex,
    )
        requires
            old(self).wf(),
            neighbour_index.is_valid(),
            Self::light_update_wf(light_update),
        ensures
            final(self).wf(),
            final(self).blocks_spec() == old(self).blocks_spec(),
            final(self).light_spec() == old(self).light_spec(),
            final(self).position_spec() == old(self).position_spec(),
            final(self).connections_spec() == old(self).connections_spec(),
            match light_update {
                LightUpdate::EmittedLight(step) => {
                    &&& final(self).emitted_queue_spec() == if less_mask_spec(
                        old(self).light_spec().emitted_at(step.position.index()),
                        step.light@,
                    ) != 0 && !block_is_opaque_spec(
                        old(self).blocks_spec().block_at(step.position.index()).0 as int,
                    ) {
                        old(self).emitted_queue_spec().push(step)
                    } else {
                        old(self).emitted_queue_spec()
                    }
                    &&& final(self).shadow_queue_spec() == old(self).shadow_queue_spec()
                    &&& final(self).skylight_queue_spec() == old(self).skylight_queue_spec()
                },
                LightUpdate::EmittedLightShadow(step) => {
                    &&& final(self).shadow_queue_spec() == old(self).shadow_queue_spec().push(step)
                    &&& final(self).emitted_queue_spec() == old(self).emitted_queue_spec()
                    &&& final(self).skylight_queue_spec() == old(self).skylight_queue_spec()
                },
                LightUpdate::Skylight(step) => {
                    &&& final(self).skylight_queue_spec() == if old(self).light_spec().sky_at(
                        step.position.index(),
                    ) < step.light.0 && !block_is_opaque_spec(
                        old(self).blocks_spec().block_at(step.position.index()).0 as int,
                    ) {
                        old(self).skylight_queue_spec().push(step)
                    } else {
                        old(self).skylight_queue_spec()
                    }
                    &&& final(self).emitted_queue_spec() == old(self).emitted_queue_spec()
                    &&& final(self).shadow_queue_spec() == old(self).shadow_queue_spec()
                },
            },
    {
        proof {
            crate::terrain::position_types::lemma_array_index_roundtrip(
                match light_update {
                    LightUpdate::EmittedLight(step) => step.position,
                    LightUpdate::EmittedLightShadow(step) => step.position,
                    LightUpdate::Skylight(step) => step.position,
                },
            );
        }
        match light_update {
            LightUpdate::EmittedLight(step) => {
                let existing_light_value = self.light_store.get_emitted_light(step.position);
                let would_increase_light = EmittedLight::less(existing_light_value, step.light) != 0;

                let block_id = self.block_store.get_block(step.position);
                let block = get_block(block_id);
                let can_pass_into_chunk = block.model.is_transparent_in_direction(
                    neighbour_index.opposite(),
                );

                if would_increase_light && can_pass_into_chunk {
                    self.emitted_light_queue.push_back(step)
                }
            },
            LightUpdate::EmittedLightShadow(step) => {
                self.emitted_light_shadow_queue.push_back(step);
            },
            LightUpdate::Skylight(step) => {
                let existing_light_value = self.light_store.get_skylight(step.position);
                let would_increase_light = existing_light_value.0 < step.light.0;

                let block_id = self.block_store.get_block(step.position);
                let block = get_block(block_id);
                let can_pass_into_chunk = block.model.is_transparent_in_direction(
                    neighbour_index.opposite(),
                );

                if would_increase_light && can_pass_into_chunk {
                    self.skylight_queue.push_back(step)
                }
            },
        }
    }

    /// Propagate light and shadow within the chunk, returning the light updates to be applied
    /// outside of the chunk.
    /// Shadows are propagated first, then emitted light, then skylight.
    pub fn update_lighting(&mut self) -> (r: Vec<(FaceIndex, LightUpdate)>)
        requires
            old(self).wf(),
        ensures
            final(self).wf(),
            final(self).emitted_queue_spec().len() == 0,
            final(self).shadow_queue_spec().len() == 0,
            final(self).skylight_queue_spec().len() == 0,
            final(self).blocks_spec() == old(self).blocks_spec(),
            final(self).position_spec() == old(self).position_spec(),
            final(self).connections_spec() == old(self).connections_spec(),
            // emitted light: shadows clear blocks within their reach, then light only grows, every
            // pending step arrives and every raised channel reaches its neighbours
            exists|cleared: Seq<u16>, out_mid: Seq<(FaceIndex, LightUpdate)>|
                #![trigger cleared.len(), out_mid.len()]
                {
                    &&& cleared.len() == 32768
                    &&& out_mid.len() <= r@.len()
                    &&& out_mid == r@.subrange(0, out_mid.len() as int)
                    &&& forall|i: int|
                        0 <= i < 32768 ==> #[trigger] cleared[i] == emitted_seq(
                            old(self).light_spec(),
                        )[i] || cleared[i] == 0
                    &&& forall|p: LocalBlockPosition|
                        p.is_valid() ==> #[trigger] cleared[p.index()] == emitted_seq(old(self).light_spec())[p.index()]
                            || shadow_from(old(self).shadow_queue_spec(), p, 1)
                    &&& forall|i: int, c: int|
                        0 <= i < 32768 && 0 <= c < 4 ==> ch(
                            emitted_seq(final(self).light_spec())[i],
                            c,
                        ) >= #[trigger] ch(cleared[i], c)
                    &&& forall|p: LocalBlockPosition, f: int, c: int|
                        p.is_valid() && 0 <= f < 6 && 0 <= c < 3 ==> ch(
                            emitted_seq(final(self).light_spec())[p.index()],
                            c,
                        ) == ch(cleared[p.index()], c) || cell_ok(
                            emitted_seq(final(self).light_spec()),
                            Seq::empty(),
                            out_mid,
                            final(self).blocks_spec(),
                            emitted_seq(final(self).light_spec())[p.index()],
                            p,
                            f,
                            c,
                        )
                },
            forall|k: int, c: int|
                0 <= k < old(self).emitted_queue_spec().len() && 0 <= c < 4 ==> ch(
                    emitted_seq(final(self).light_spec())[old(self).emitted_queue_spec()[k].position.index()],
                    c,
                ) >= ch(old(self).emitted_queue_spec()[k].light@, c),
            // skylight: only grows, every pending step arrives and every raised level
            // reaches its neighbours
            forall|i: int|
                0 <= i < 32768 ==> sky_seq(final(self).light_spec())[i] >= sky_seq(
                    old(self).light_spec(),
                )[i],
            forall|p: LocalBlockPosition, f: int|
                p.is_valid() && 0 <= f < 6 ==> sky_seq(final(self).light_spec())[p.index()]
                    == sky_seq(old(self).light_spec())[p.index()] || sky_cell_ok(
                    sky_seq(final(self).light_spec()),
                    Seq::empty(),
                    r@,
                    final(self).blocks_spec(),
                    sky_seq(final(self).light_spec())[p.index()],
                    p,
                    f,
                ),
            forall|k: int|
                0 <= k < old(self).skylight_queue_spec().len() ==> sky_seq(final(self).light_spec())[old(self).skylight_queue_spec()[k].position.index()] >= old(self).skylight_queue_spec()[k].light.0,
            // no light appears that is not accounted for
            forall|p: LocalBlockPosition, c: int|
                p.is_valid() && 0 <= c < 4 ==> #[trigger] emitted_accounted(
                    emitted_seq(final(self).light_spec()),
                    emitted_seq(old(self).light_spec()),
                    old(self).emitted_queue_spec(),
                    final(self).blocks_spec(),
                    p,
                    c,
                ),
            forall|p: LocalBlockPosition|
                p.is_valid() ==> #[trigger] sky_supported(
                    sky_seq(final(self).light_spec()),
                    sky_seq(old(self).light_spec()),
                    old(self).skylight_queue_spec(),
                    final(self).blocks_spec(),
                    p,
                    sky_seq(final(self).light_spec())[p.index()],
                ),
            // emitted light raised only within reach of the queued steps and of the repair steps
            // the shadows queued; every update sent to a neighbouring chunk is a shadow sent on
            // from the queued shadows, or light written at a border block within that reach
            exists|repairs: Seq<LightPropagationStep<EmittedLight>>|
                #![trigger repairs.len()]
                {
                    &&& forall|k: int|
                        0 <= k < repairs.len() ==> repair_ok(
                            #[trigger] repairs[k],
                            emitted_seq(old(self).light_spec()),
                            old(self).blocks_spec(),
                        ) && repair_in_reach(repairs[k], old(self).shadow_queue_spec())
                    &&& forall|p: LocalBlockPosition, c: int|
                        p.is_valid() && 0 <= c < 4 ==> ch(emitted_seq(final(self).light_spec())[p.index()], c)
                            <= ch(emitted_seq(old(self).light_spec())[p.index()], c)
                            || #[trigger] within_queue_reach(
                            old(self).emitted_queue_spec() + repairs,
                            p,
                            emitted_seq(final(self).light_spec())[p.index()],
                            c,
                        )
                    &&& forall|k: int|
                        0 <= k < r@.len() ==> shadow_out_ok(old(self).shadow_queue_spec(), #[trigger] r@[k])
                            || emitted_out_ok(
                            emitted_seq(final(self).light_spec()),
                            old(self).emitted_queue_spec() + repairs,
                            r@[k],
                        ) || sky_out_ok(sky_seq(final(self).light_spec()), old(self).skylight_queue_spec(), r@[k])
                },
            forall|p: LocalBlockPosition|
                p.is_valid() ==> sky_seq(final(self).light_spec())[p.index()] <= sky_seq(old(self).light_spec())[p.index()]
                    || #[trigger] sky_within_reach(
                    old(self).skylight_queue_spec(),
                    p,
                    sky_seq(final(self).light_spec())[p.index()],
                ),
            // with nothing queued, nothing is sent and no light changes
            old(self).shadow_queue_spec().len() == 0 && old(self).emitted_queue_spec().len() == 0
                && old(self).skylight_queue_spec().len() == 0 ==> r@.len() == 0 && forall|p: LocalBlockPosition|
                p.is_valid() ==> #[trigger] emitted_seq(final(self).light_spec())[p.index()] == emitted_seq(
                    old(self).light_spec(),
                )[p.index()] && sky_seq(final(self).light_spec())[p.index()] == sky_seq(old(self).light_spec())[p.index()],
    {
        let mut light_updates_outside_chunk: Vec<(FaceIndex, LightUpdate)> = Vec::new();
        let ghost e0 = emitted_seq(self.light_store);
        let ghost s0 = sky_seq(self.light_store);
        let ghost eq0 = self.emitted_light_queue@;
        let ghost sq0 = self.emitted_light_shadow_queue@;
        let ghost skq0 = self.skylight_queue@;
        proof {
            assert forall|j: int| 0 <= j < 32768 implies (#[trigger] LightStore::<EmittedLight>::light_at(
                &self.light_store,
                j,
            ))@ < 0x1000 by {
                self.light_store.lemma_values_bounded(j);
            }
        }

        propagate_emitted_light_shadow(
            &mut self.light_store,
            &mut self.emitted_light_shadow_queue,
            &mut self.emitted_light_queue,
            &mut light_updates_outside_chunk,
            &self.block_store,
        );
        let ghost e1 = emitted_seq(self.light_store);
        let ghost s1 = sky_seq(self.light_store);
        let ghost eq1 = self.emitted_light_queue@;
        let ghost out1 = light_updates_outside_chunk@;
        proof {
            assert forall|j: int| 0 <= j < 32768 implies (#[trigger] LightStore::<EmittedLight>::light_at(
                &self.light_store,
                j,
            ))@ < 0x1000 by {
                self.light_store.lemma_values_bounded(j);
            }
        }

        propagate_emitted_light(
            &mut self.light_store,
            &mut self.emitted_light_queue,
            &mut light_updates_outside_chunk,
            &self.block_store,
        );
        let ghost e2 = emitted_seq(self.light_store);
        let ghost out2 = light_updates_outside_chunk@;
        proof {
            assert forall|j: int| 0 <= j < 32768 implies (#[trigger] LightStore::<Skylight>::light_at(
                &self.light_store,
                j,
            )).0 < 16 by {
                self.light_store.lemma_values_bounded(j);
            }
        }

        let ghost store2 = self.light_store;
        propagate_skylight(
            &mut self.light_store,
            &mut self.skylight_queue,
            &mut light_updates_outside_chunk,
            &self.block_store,
        );
        proof {
            // each pass leaves the other kind of light alone
            let store0 = old(self).light_store;
            assert forall|j: int| 0 <= j < 32768 implies #[trigger] s0[j] == sky_seq(store2)[j] by {
                assert(LightStore::<EmittedLight>::rest(&store2)[j] == LightStore::<EmittedLight>::rest(
                    &store0,
                )[j]);
            }
            assert(s0 =~= sky_seq(store2));
            assert forall|j: int| 0 <= j < 32768 implies #[trigger] e2[j] == emitted_seq(
                self.light_store,
            )[j] by {
                assert(LightStore::<Skylight>::rest(&self.light_store)[j] == LightStore::<Skylight>::rest(
                    &store2,
                )[j]);
            }
            assert(e2 =~= emitted_seq(self.light_store));
            let r = light_updates_outside_chunk@;
            assert(out2 =~= r.subrange(0, out2.len() as int));
            assert(e1.len() == 32768);
            assert forall|k: int, c: int|
                0 <= k < eq0.len() && 0 <= c < 4 implies ch(
                e2[eq0[k].position.index()],
                c,
            ) >= ch(eq0[k].light@, c) by {
                assert(eq1[k] == eq0[k]);
            }
            assert forall|p: LocalBlockPosition, c: int| p.is_valid() && 0 <= c < 4 implies #[trigger] emitted_accounted(
                emitted_seq(self.light_store),
                e0,
                eq0,
                self.block_store,
                p,
                c,
            ) by {
                lemma_accounted_through_shadow(e0, e1, e2, eq0, eq1, self.block_store, p, c);
            }
            let ghost repairs = eq1.subrange(eq0.len() as int, eq1.len() as int);
            assert(eq0 + repairs =~= eq1);
            let s3 = sky_seq(self.light_store);
            assert forall|k: int| 0 <= k < repairs.len() implies repair_ok(#[trigger] repairs[k], e0, self.block_store)
                && repair_in_reach(repairs[k], sq0) by {
                assert(repairs[k] == eq1[k + eq0.len()]);
            }
            assert forall|p: LocalBlockPosition, c: int| p.is_valid() && 0 <= c < 4 implies ch(e2[p.index()], c) <= ch(e0[p.index()], c)
                || #[trigger] within_queue_reach(eq0 + repairs, p, e2[p.index()], c) by {
                crate::terrain::position_types::lemma_array_index_roundtrip(p);
                lemma_channels(e0[p.index()], 0);
                assert(e1[p.index()] == e0[p.index()] || e1[p.index()] == 0);
                if !within_queue_reach(eq1, p, e2[p.index()], c) {
                    assert(ch(e2[p.index()], c) <= ch(e1[p.index()], c));
                }
            }
            assert forall|k: int| 0 <= k < r.len() implies shadow_out_ok(sq0, #[trigger] r[k])
                || emitted_out_ok(e2, eq0 + repairs, r[k]) || sky_out_ok(s3, skq0, r[k]) by {
                if k < out1.len() {
                    assert(r[k] == out2[k]);
                    assert(out2[k] == out1[k]);
                } else if k < out2.len() {
                    assert(r[k] == out2[k]);
                    assert(emitted_out_ok(e2, eq1, out2[k]));
                }
            }
            if sq0.len() == 0 && eq0.len() == 0 && skq0.len() == 0 {
                assert(repairs.len() == 0) by {
                    if repairs.len() > 0 {
                        assert(repair_in_reach(repairs[0], sq0));
                    }
                }
                assert(eq1.len() == 0);
                if r.len() > 0 {
                    let k: int = 0;
                    if k < out1.len() {
                        assert(r[k] == out1[k]);
                        assert(shadow_out_ok(sq0, out1[k]));
                        let (q, f, d) = choose|q: LocalBlockPosition, f: int, d: u32| #[trigger] shadow_sent(sq0, out1[k], q, f, d);
                        assert(shadow_from(sq0, q, d as int));
                    } else if k < out2.len() {
                        assert(r[k] == out2[k]);
                        assert(emitted_out_ok(e2, eq1, out2[k]));
                        let (q, f, v) = choose|q: LocalBlockPosition, f: int, v: u16| #[trigger] emitted_sent(e2, eq1, out2[k], q, f, v);
                        lemma_channels(v, 0);
                        lemma_channels(decrement_spec(v), 0);
                        assert forall|c: int| 0 <= c < 4 implies ch(v, c) == ch(0u16, c) by {
                            assert(sent_channel_ok(e2, eq1, q, v, c));
                        }
                        assert(v == 0);
                        assert forall|c: int| 0 <= c < 4 implies ch(decrement_spec(v), c) == ch(0u16, c) by {}
                    } else {
                        assert(sky_out_ok(s3, skq0, r[k]));
                        let (q, f, v) = choose|q: LocalBlockPosition, f: int, v: u8| #[trigger] sky_sent(s3, skq0, r[k], q, f, v);
                    }
                    assert(false);
                }
                assert forall|p: LocalBlockPosition| p.is_valid() implies #[trigger] e2[p.index()] == e0[p.index()]
                    && s3[p.index()] == s0[p.index()] by {
                    crate::terrain::position_types::lemma_array_index_roundtrip(p);
                    lemma_channels(e2[p.index()], e0[p.index()]);
                    lemma_channels(e0[p.index()], 0);
                    assert(e1[p.index()] == e0[p.index()]);
                    assert forall|c: int| 0 <= c < 4 implies ch(e2[p.index()], c) == ch(e0[p.index()], c) by {
                        if !(ch(e2[p.index()], c) <= ch(e1[p.index()], c)) {
                            assert(within_queue_reach(eq1, p, e2[p.index()], c));
                        }
                    }
                    if !(s3[p.index()] <= s0[p.index()]) {
                        assert(sky_within_reach(skq0, p, s3[p.index()]));
                    }
                }
            }
        }
        light_updates_outside_chunk
    }
}

} // verus!
