//! Voxel terrain: blocks, chunks, positions, lighting and load areas, and the terrain
//! itself, which keeps the loaded chunks and the areas around which chunks are loaded.

pub mod block;
pub mod chunk;
pub mod chunk_arena;
pub mod editing;
pub mod event;
pub mod lighting;
pub mod load_area;
pub mod position_types;
pub mod temporary_generation;

use crate::terrain::block::BlockId;
use crate::terrain::chunk::Chunk;
use crate::terrain::chunk_arena::{
    arena_chunks, arena_contains, arena_get, arena_get_mut, arena_insert, arena_new, arena_remove, ChunkIndex,
};
use crate::terrain::event::TerrainEvent;
use crate::terrain::load_area::{ChunkState, LoadArea, LoadAreaState};
use crate::terrain::position_types::{ChunkPosition, GlobalBlockPosition, LocalBlockPosition};
use generational_arena::Arena;
use vstd::prelude::*;

verus! {

/// Area `a1` is area `a0` with the state of chunk `c` set to `st`, if `c` lies in the
/// area's box; else `a1` is `a0`.
pub open spec fn area_marked(a0: LoadArea, a1: LoadArea, c: ChunkPosition, st: ChunkState) -> bool {
    if a0.within_bounds_spec(c) {
        &&& a1.wf()
        &&& a1.position_spec() == a0.position_spec()
        &&& a1.size_spec() == a0.size_spec()
        &&& a1.shape_spec() == a0.shape_spec()
        &&& a1.state_spec() == a0.state_spec()
        &&& a1.slot_state(a0.slot(c)) == st
        &&& forall|i: int|
            0 <= i < a0.size_spec().product_spec() && i != a0.slot(c) ==> #[trigger] a1.slot_state(i) == a0.slot_state(i)
    } else {
        a1 == a0
    }
}

/// Each area of `s1` is the one of `s0` with the state of chunk `c` set to `st`, where
/// `c` lies in its box.
pub open spec fn areas_marked(s0: Seq<LoadArea>, s1: Seq<LoadArea>, c: ChunkPosition, st: ChunkState) -> bool {
    &&& s1.len() == s0.len()
    &&& forall|k: int| 0 <= k < s0.len() ==> #[trigger] area_marked(s0[k], s1[k], c, st)
}

/// Chunk `c` lies in the box of some area of `areas`.
pub open spec fn in_some_box(areas: Seq<LoadArea>, c: ChunkPosition) -> bool {
    exists|k: int| 0 <= k < areas.len() && #[trigger] areas[k].within_bounds_spec(c)
}

/// No area of `areas` has chunk `c` loaded or loading.
pub open spec fn all_unloaded(areas: Seq<LoadArea>, c: ChunkPosition) -> bool {
    forall|k: int| 0 <= k < areas.len() ==> #[trigger] areas[k].state_of(c) is Unloaded
}

/// The areas of `s1` are those of `s0` but for the states of their chunks: the same
/// number, well-formed, at the same places with the same sizes, shapes and states.
pub open spec fn areas_kept_apart_from_states(s0: Seq<LoadArea>, s1: Seq<LoadArea>) -> bool {
    &&& s1.len() == s0.len()
    &&& forall|k: int|
        0 <= k < s0.len() ==> {
            &&& (#[trigger] s1[k]).wf()
            &&& s1[k].position_spec() == s0[k].position_spec()
            &&& s1[k].size_spec() == s0[k].size_spec()
            &&& s1[k].shape_spec() == s0[k].shape_spec()
            &&& s1[k].state_spec() == s0[k].state_spec()
        }
}

/// After setting the state of chunk `c` in an area, `c` has that state if it lies in
/// the area's box, and every other chunk keeps its state.
pub proof fn lemma_area_marked_lookup(a0: LoadArea, a1: LoadArea, c: ChunkPosition, st: ChunkState, other: ChunkPosition)
    requires
        a0.wf(),
        area_marked(a0, a1, c, st),
        st is Unloaded || st == ChunkState::Loading(c) || (st matches ChunkState::Loaded(p, _) && p == c),
    ensures
        other != c ==> a1.state_of(other) == a0.state_of(other),
        a0.within_bounds_spec(c) ==> a1.state_of(c) == st,
{
    if a0.within_bounds_spec(c) {
        a0.lemma_slot_in_range(c);
        if a0.within_bounds_spec(other) {
            a0.lemma_slot_in_range(other);
            if other != c && a0.slot(other) == a0.slot(c) {
                crate::terrain::load_area::lemma_slots_distinct(a0, other, c);
            }
        }
    }
}

/// The positions that every area of `areas` has unloaded, each once, in the order in
/// which they first occur in `positions`.
pub open spec fn first_unloaded(areas: Seq<LoadArea>, positions: Seq<ChunkPosition>) -> Seq<ChunkPosition>
    decreases positions.len(),
{
    if positions.len() == 0 {
        Seq::empty()
    } else {
        let rest = positions.drop_last();
        let p = positions.last();
        if all_unloaded(areas, p) && !rest.contains(p) {
            first_unloaded(areas, rest).push(p)
        } else {
            first_unloaded(areas, rest)
        }
    }
}

/// Some area of `areas` is dirty.
pub open spec fn any_dirty(areas: Seq<LoadArea>) -> bool {
    exists|k: int| 0 <= k < areas.len() && #[trigger] areas[k].state_spec() == LoadAreaState::Dirty
}

/// Chunk `i` of `t0` is one of `candidates`.
pub open spec fn removed(t0: Terrain, candidates: Seq<ChunkIndex>, i: ChunkIndex) -> bool {
    t0.chunks_spec().contains_key(i) && candidates.contains(i)
}

/// The events of unloading `candidates` from `chunks`, in order: one for each candidate
/// stored in `chunks` that does not occur earlier in the list.
pub open spec fn unload_events(chunks: Map<ChunkIndex, Chunk>, candidates: Seq<ChunkIndex>) -> Seq<TerrainEvent>
    decreases candidates.len(),
{
    if candidates.len() == 0 {
        Seq::empty()
    } else {
        let rest = candidates.drop_last();
        let c = candidates.last();
        if chunks.contains_key(c) && !rest.contains(c) {
            unload_events(chunks, rest).push(TerrainEvent::ChunkUnloaded(chunks[c].position_spec()))
        } else {
            unload_events(chunks, rest)
        }
    }
}

/// `c` is the position of a chunk of `t0` that is one of `candidates`.
pub open spec fn unloaded_position(t0: Terrain, candidates: Seq<ChunkIndex>, c: ChunkPosition) -> bool {
    exists|i: ChunkIndex| #[trigger] removed(t0, candidates, i) && t0.chunks_spec()[i].position_spec() == c
}

/// `t1` is `t0` with the chunks of `candidates` unloaded: they are gone, the other
/// chunks stay, the areas have them unloaded and change nothing else, and the unload events were added in the order of `candidates`.
pub open spec fn unloaded_exactly(t0: Terrain, t1: Terrain, candidates: Seq<ChunkIndex>) -> bool {
    &&& forall|i: ChunkIndex| #[trigger] t1.chunks_spec().contains_key(i) <==> t0.chunks_spec().contains_key(i) && !candidates.contains(i)
    &&& forall|i: ChunkIndex| #[trigger] t1.chunks_spec().contains_key(i) ==> t1.chunks_spec()[i] == t0.chunks_spec()[i]
    &&& areas_kept_apart_from_states(t0.areas_spec(), t1.areas_spec())
    &&& forall|k: int, c: ChunkPosition|
        0 <= k < t0.areas_spec().len() && !unloaded_position(t0, candidates, c) ==> #[trigger] t1.areas_spec()[k].state_of(c)
            == t0.areas_spec()[k].state_of(c)
    &&& forall|k: int, i: ChunkIndex|
        0 <= k < t0.areas_spec().len() && #[trigger] removed(t0, candidates, i) ==> #[trigger] t1.areas_spec()[k].state_of(
            t0.chunks_spec()[i].position_spec(),
        ) is Unloaded
    &&& t1.events_spec() == t0.events_spec() + unload_events(t0.chunks_spec(), candidates)
}

/// Unloading the next candidate, still loaded, keeps [`unloaded_exactly`].
proof fn lemma_unload_step(t0: Terrain, t1: Terrain, t2: Terrain, cands: Seq<ChunkIndex>, c: ChunkIndex)
    requires
        t0.wf(),
        t1.wf(),
        unloaded_exactly(t0, t1, cands),
        t1.chunks_spec().contains_key(c),
        t2.chunks_spec() == t1.chunks_spec().remove(c),
        areas_marked(t1.areas_spec(), t2.areas_spec(), t1.chunks_spec()[c].position_spec(), ChunkState::Unloaded),
        t2.events_spec() == t1.events_spec().push(TerrainEvent::ChunkUnloaded(t1.chunks_spec()[c].position_spec())),
    ensures
        unloaded_exactly(t0, t2, cands.push(c)),
{
    let cands1 = cands.push(c);
    let pos = t1.chunks_spec()[c].position_spec();
    assert(t0.chunks_spec().contains_key(c) && !cands.contains(c));
    assert(t1.chunks_spec()[c] == t0.chunks_spec()[c]);
    assert(cands1.contains(c)) by {
        assert(cands1[cands.len() as int] == c);
    }
    assert forall|x: ChunkIndex| cands1.contains(x) <==> cands.contains(x) || x == c by {
        if cands1.contains(x) {
            let j = choose|j: int| 0 <= j < cands1.len() && cands1[j] == x;
            if j < cands.len() {
                assert(cands[j] == x);
            }
        }
        if cands.contains(x) {
            let j = choose|j: int| 0 <= j < cands.len() && cands[j] == x;
            assert(cands1[j] == x);
        }
    }
    assert forall|i: ChunkIndex| #[trigger] t2.chunks_spec().contains_key(i) <==> t0.chunks_spec().contains_key(i) && !cands1.contains(i) by {}
    assert forall|k: int| 0 <= k < t0.areas_spec().len() implies {
        &&& (#[trigger] t2.areas_spec()[k]).wf()
        &&& t2.areas_spec()[k].position_spec() == t0.areas_spec()[k].position_spec()
        &&& t2.areas_spec()[k].size_spec() == t0.areas_spec()[k].size_spec()
        &&& t2.areas_spec()[k].shape_spec() == t0.areas_spec()[k].shape_spec()
        &&& t2.areas_spec()[k].state_spec() == t0.areas_spec()[k].state_spec()
    } by {
        assert(area_marked(t1.areas_spec()[k], t2.areas_spec()[k], pos, ChunkState::Unloaded));
        assert(t1.areas_spec()[k].wf());
    }
    assert forall|k: int, x: ChunkPosition| 0 <= k < t0.areas_spec().len() && !unloaded_position(t0, cands1, x) implies #[trigger] t2.areas_spec()[k].state_of(x)
        == t0.areas_spec()[k].state_of(x) by {
        assert(removed(t0, cands1, c));
        assert(x != pos);
        assert(area_marked(t1.areas_spec()[k], t2.areas_spec()[k], pos, ChunkState::Unloaded));
        lemma_area_marked_lookup(t1.areas_spec()[k], t2.areas_spec()[k], pos, ChunkState::Unloaded, x);
        if unloaded_position(t0, cands, x) {
            let i = choose|i: ChunkIndex| #[trigger] removed(t0, cands, i) && t0.chunks_spec()[i].position_spec() == x;
            assert(removed(t0, cands1, i));
        }
    }
    assert forall|k: int, i: ChunkIndex|
        0 <= k < t0.areas_spec().len() && #[trigger] removed(t0, cands1, i) implies #[trigger] t2.areas_spec()[k].state_of(
        t0.chunks_spec()[i].position_spec(),
    ) is Unloaded by {
        let x = t0.chunks_spec()[i].position_spec();
        assert(area_marked(t1.areas_spec()[k], t2.areas_spec()[k], pos, ChunkState::Unloaded));
        lemma_area_marked_lookup(t1.areas_spec()[k], t2.areas_spec()[k], pos, ChunkState::Unloaded, x);
        if x == pos {
            if !t1.areas_spec()[k].within_bounds_spec(pos) {
                assert(t2.areas_spec()[k] == t1.areas_spec()[k]);
            }
        } else {
            if i != c {
                assert(removed(t0, cands, i));
            }
        }
    }
    assert(cands1.drop_last() == cands);
    assert(unload_events(t0.chunks_spec(), cands1) == unload_events(t0.chunks_spec(), cands).push(
        TerrainEvent::ChunkUnloaded(pos),
    ));
    assert(t2.events_spec() =~= t0.events_spec() + unload_events(t0.chunks_spec(), cands1));
}

/// Skipping a candidate that is no longer loaded keeps [`unloaded_exactly`].
proof fn lemma_skip_step(t0: Terrain, t1: Terrain, cands: Seq<ChunkIndex>, c: ChunkIndex)
    requires
        unloaded_exactly(t0, t1, cands),
        !t1.chunks_spec().contains_key(c),
    ensures
        unloaded_exactly(t0, t1, cands.push(c)),
{
    let cands1 = cands.push(c);
    assert forall|x: ChunkIndex| cands1.contains(x) <==> cands.contains(x) || x == c by {
        if cands1.contains(x) {
            let j = choose|j: int| 0 <= j < cands1.len() && cands1[j] == x;
            if j < cands.len() {
                assert(cands[j] == x);
            }
        }
        if cands.contains(x) {
            let j = choose|j: int| 0 <= j < cands.len() && cands[j] == x;
            assert(cands1[j] == x);
        } else if x == c {
            assert(cands1[cands.len() as int] == c);
        }
    }
    assert forall|i: ChunkIndex| #[trigger] t1.chunks_spec().contains_key(i) <==> t0.chunks_spec().contains_key(i) && !cands1.contains(i) by {}
    assert forall|k: int, i: ChunkIndex|
        0 <= k < t0.areas_spec().len() && #[trigger] removed(t0, cands1, i) implies #[trigger] t1.areas_spec()[k].state_of(
        t0.chunks_spec()[i].position_spec(),
    ) is Unloaded by {
        if i == c && !cands.contains(c) {
            assert(t0.chunks_spec().contains_key(c));
            assert(t1.chunks_spec().contains_key(c));
        }
        assert(removed(t0, cands, i));
    }
    assert forall|k: int, x: ChunkPosition| 0 <= k < t0.areas_spec().len() && !unloaded_position(t0, cands1, x) implies #[trigger] t1.areas_spec()[k].state_of(x)
        == t0.areas_spec()[k].state_of(x) by {
        if unloaded_position(t0, cands, x) {
            let i = choose|i: ChunkIndex| #[trigger] removed(t0, cands, i) && t0.chunks_spec()[i].position_spec() == x;
            assert(removed(t0, cands1, i));
        }
    }
    assert(cands1.drop_last() == cands);
    assert(unload_events(t0.chunks_spec(), cands1) == unload_events(t0.chunks_spec(), cands)) by {
        if t0.chunks_spec().contains_key(c) && !cands.contains(c) {
            assert(t1.chunks_spec().contains_key(c));
        }
    }
}

/// `t1` is `t0` with `chunk` stored under index `i`, which held no chunk before, and the
/// areas whose box holds the chunk noting it as loaded under `i`.
pub open spec fn stored_as(t0: Terrain, t1: Terrain, chunk: Chunk, i: ChunkIndex) -> bool {
    let c = chunk.position_spec();
    &&& !t0.chunks_spec().contains_key(i)
    &&& t1.chunks_spec() == t0.chunks_spec().insert(i, chunk)
    &&& areas_marked(t0.areas_spec(), t1.areas_spec(), c, ChunkState::Loaded(c, i))
    &&& t1.events_spec() == t0.events_spec().push(TerrainEvent::ChunkLoaded(c))
}

/// Manages the voxel terrain: the loaded chunks, stored under the index the load areas
/// know them by, the areas around which chunks are loaded, and the events that happened
/// to the terrain
pub struct Terrain {
    /// Currently loaded chunks
    chunks: Arena<Chunk>,
    /// Areas around which chunks are loaded
    load_areas: Vec<LoadArea>,
    /// Terrain events
    events: Vec<TerrainEvent>,
}

impl Terrain {
    /// The loaded chunks, by index.
    pub closed spec fn chunks_spec(&self) -> Map<ChunkIndex, Chunk> {
        arena_chunks(self.chunks)
    }

    /// The areas around which chunks are loaded.
    pub closed spec fn areas_spec(&self) -> Seq<LoadArea> {
        self.load_areas@
    }

    /// The events since they were last cleared, oldest first.
    pub closed spec fn events_spec(&self) -> Seq<TerrainEvent> {
        self.events@
    }

    /// Well-formed areas and chunks.
    pub open spec fn wf(&self) -> bool {
        &&& forall|k: int| 0 <= k < self.areas_spec().len() ==> (#[trigger] self.areas_spec()[k]).wf()
        &&& forall|i: ChunkIndex| #[trigger] self.chunks_spec().contains_key(i) ==> self.chunks_spec()[i].wf()
    }

    /// The chunk that area `a` knows as loaded at `c`, if it is still stored.
    pub open spec fn chunk_at(&self, a: int, c: ChunkPosition) -> Option<Chunk> {
        match self.areas_spec()[a].state_of(c) {
            ChunkState::Loaded(_, i) => if self.chunks_spec().contains_key(i) {
                Some(self.chunks_spec()[i])
            } else {
                None
            },
            _ => None,
        }
    }

    /// Terrain with no chunks, no load areas and no events.
    pub fn new() -> (r: Self)
        ensures
            r.wf(),
            r.chunks_spec() == Map::<ChunkIndex, Chunk>::empty(),
            r.areas_spec() == Seq::<LoadArea>::empty(),
            r.events_spec() == Seq::<TerrainEvent>::empty(),
    {
        Terrain { chunks: arena_new(), load_areas: Vec::new(), events: Vec::new() }
    }

    /// Add an area around which chunks are loaded, returning its index
    pub fn add_load_area(&mut self, area: LoadArea) -> (r: usize)
        requires
            old(self).wf(),
            area.wf(),
        ensures
            final(self).wf(),
            r == old(self).areas_spec().len(),
            final(self).areas_spec() == old(self).areas_spec().push(area),
            final(self).chunks_spec() == old(self).chunks_spec(),
            final(self).events_spec() == old(self).events_spec(),
    {
        let r = self.load_areas.len();
        self.load_areas.push(area);
        proof {
            assert forall|k: int| 0 <= k < self.areas_spec().len() implies (#[trigger] self.areas_spec()[k]).wf() by {
                if k < r {
                    assert(self.areas_spec()[k] == old(self).areas_spec()[k]);
                }
            }
            assert forall|i: ChunkIndex| #[trigger] self.chunks_spec().contains_key(i) implies self.chunks_spec()[i].wf() by {
                assert(old(self).chunks_spec().contains_key(i));
            }
        }
        r
    }

    /// The areas around which chunks are loaded
    pub fn load_areas(&self) -> (r: &Vec<LoadArea>)
        ensures
            r@ == self.areas_spec(),
    {
        &self.load_areas
    }

    /// The loaded chunks, by index
    pub fn chunks(&self) -> (r: &Arena<Chunk>)
        ensures
            arena_chunks(*r) == self.chunks_spec(),
    {
        &self.chunks
    }

    /// All events that have occurred since the last call to `clear_events()` in
    /// chronological order
    pub fn events(&self) -> (r: &Vec<TerrainEvent>)
        ensures
            r@ == self.events_spec(),
    {
        &self.events
    }

    /// Clear the list of outstanding events
    pub fn clear_events(&mut self)
        requires
            old(self).wf(),
        ensures
            final(self).wf(),
            final(self).events_spec() == Seq::<TerrainEvent>::empty(),
            final(self).chunks_spec() == old(self).chunks_spec(),
            final(self).areas_spec() == old(self).areas_spec(),
    {
        self.events.clear();
        proof {
            lemma_wf_frame(*old(self), *self);
        }
    }

    /// If the chunk at the given position is loaded and within the specified load area,
    /// returns it. Otherwise returns None
    pub fn get_chunk(&self, load_area_index: usize, chunk_pos: &ChunkPosition) -> (r: Option<&Chunk>)
        requires
            self.wf(),
            load_area_index < self.areas_spec().len(),
        ensures
            match r {
                Some(c) => self.chunk_at(load_area_index as int, *chunk_pos) == Some(*c),
                None => self.chunk_at(load_area_index as int, *chunk_pos) is None,
            },
    {
        let load_area = &self.load_areas[load_area_index];
        match load_area.get_chunk_index(chunk_pos) {
            Some(chunk_index) => arena_get(&self.chunks, chunk_index),
            None => None,
        }
    }

    /// If the position is inside a loaded chunk within the given load area, returns the
    /// block ID at that position. Otherwise returns None
    pub fn get_block(&self, load_area_index: usize, global_block_pos: &GlobalBlockPosition) -> (r: Option<BlockId>)
        requires
            self.wf(),
            load_area_index < self.areas_spec().len(),
        ensures
            ({
                let c = ChunkPosition::containing_spec(*global_block_pos);
                let l = LocalBlockPosition::from_global_spec(*global_block_pos);
                r == match self.chunk_at(load_area_index as int, c) {
                    Some(chunk) => Some(chunk.blocks_spec().block_at(l.index())),
                    None => None,
                }
            }),
    {
        let (local_block_pos, chunk_pos) = global_block_pos.get_local_and_chunk_pos();
        match self.get_chunk(load_area_index, &chunk_pos) {
            Some(chunk) => Some(chunk.get_block(local_block_pos)),
            None => None,
        }
    }

    /// If the global block position is inside a loaded chunk within the given load area,
    /// sets the block to the given ID and fires a `BlockModified` event.
    /// Otherwise returns false
    pub fn set_block(&mut self, load_area_index: usize, global_block_pos: &GlobalBlockPosition, new_id: BlockId) -> (r: bool)
        requires
            old(self).wf(),
            load_area_index < old(self).areas_spec().len(),
            new_id.0 < 5,
        ensures
            final(self).wf(),
            final(self).areas_spec() == old(self).areas_spec(),
            ({
                let c = ChunkPosition::containing_spec(*global_block_pos);
                let l = LocalBlockPosition::from_global_spec(*global_block_pos);
                &&& r == old(self).chunk_at(load_area_index as int, c) is Some
                &&& !r ==> *final(self) == *old(self)
                &&& r ==> {
                    let i = old(self).areas_spec()[load_area_index as int].state_of(c)->Loaded_1;
                    let c0 = old(self).chunks_spec()[i];
                    let c1 = final(self).chunks_spec()[i];
                    &&& final(self).chunks_spec() == old(self).chunks_spec().insert(i, c1)
                    &&& c1.blocks_spec().block_at(l.index()) == new_id
                    &&& forall|j: int|
                        0 <= j < 32768 && j != l.index() ==> c1.blocks_spec().block_at(j) == c0.blocks_spec().block_at(j)
                    &&& c1.position_spec() == c0.position_spec()
                    &&& final(self).events_spec() == old(self).events_spec().push(TerrainEvent::BlockModified(c, l))
                }
            }),
    {
        let (local_block_pos, chunk_pos) = global_block_pos.get_local_and_chunk_pos();
        match self.load_areas[load_area_index].get_chunk_index(&chunk_pos) {
            Some(chunk_index) => if !arena_contains(&self.chunks, chunk_index) {
                false
            } else {
                let chunk = arena_get_mut(&mut self.chunks, chunk_index);
                proof {
                    assert(old(self).chunks_spec().contains_key(chunk_index));
                }
                chunk.set_block(local_block_pos, new_id);
                self.events.push(TerrainEvent::BlockModified(chunk_pos, local_block_pos));
                proof {
                    lemma_wf_insert(*old(self), *self, chunk_index, self.chunks_spec()[chunk_index]);
                }
                true
            },
            None => false,
        }
    }

    /// Set the state of chunk `c` to `st` in each load area whose box holds it
    fn mark_in_areas(&mut self, c: &ChunkPosition, st: ChunkState)
        requires
            old(self).wf(),
            st is Unloaded || st == ChunkState::Loading(*c) || (st matches ChunkState::Loaded(p, _) && p == *c),
        ensures
            final(self).wf(),
            areas_marked(old(self).areas_spec(), final(self).areas_spec(), *c, st),
            areas_kept_apart_from_states(old(self).areas_spec(), final(self).areas_spec()),
            final(self).chunks_spec() == old(self).chunks_spec(),
            final(self).events_spec() == old(self).events_spec(),
    {
        let mut k: usize = 0;
        while k < self.load_areas.len()
            invariant
                k <= self.areas_spec().len(),
                self.areas_spec().len() == old(self).areas_spec().len(),
                forall|j: int| 0 <= j < self.areas_spec().len() ==> (#[trigger] self.areas_spec()[j]).wf(),
                forall|j: int| 0 <= j < k ==> #[trigger] area_marked(old(self).areas_spec()[j], self.areas_spec()[j], *c, st),
                forall|j: int| k <= j < self.areas_spec().len() ==> #[trigger] self.areas_spec()[j] == old(self).areas_spec()[j],
                self.chunks_spec() == old(self).chunks_spec(),
                self.events_spec() == old(self).events_spec(),
                old(self).wf(),
                st is Unloaded || st == ChunkState::Loading(*c) || (st matches ChunkState::Loaded(p, _) && p == *c),
            decreases self.areas_spec().len() - k,
        {
            let ghost before = self.areas_spec();
            if self.load_areas[k].is_within_bounds(c) {
                match st {
                    ChunkState::Unloaded => self.load_areas[k].mark_unloaded(c),
                    ChunkState::Loading(_) => self.load_areas[k].mark_loading(c),
                    ChunkState::Loaded(_, i) => self.load_areas[k].mark_loaded(c, i),
                }
            }
            proof {
                assert forall|j: int| 0 <= j < self.areas_spec().len() && j != k implies #[trigger] self.areas_spec()[j] == before[j] by {}
                assert(area_marked(old(self).areas_spec()[k as int], self.areas_spec()[k as int], *c, st));
            }
            k = k + 1;
        }
        proof {
            assert forall|i: ChunkIndex| #[trigger] self.chunks_spec().contains_key(i) implies self.chunks_spec()[i].wf() by {
                assert(old(self).chunks_spec().contains_key(i));
            }
            assert forall|j: int| 0 <= j < old(self).areas_spec().len() implies {
                &&& (#[trigger] self.areas_spec()[j]).wf()
                &&& self.areas_spec()[j].position_spec() == old(self).areas_spec()[j].position_spec()
                &&& self.areas_spec()[j].size_spec() == old(self).areas_spec()[j].size_spec()
                &&& self.areas_spec()[j].shape_spec() == old(self).areas_spec()[j].shape_spec()
                &&& self.areas_spec()[j].state_spec() == old(self).areas_spec()[j].state_spec()
            } by {
                assert(area_marked(old(self).areas_spec()[j], self.areas_spec()[j], *c, st));
                assert(old(self).areas_spec()[j].wf());
            }
        }
    }

    /// Begin loading the chunk at `chunk_pos`, unless a load area already has it loaded or
    /// loading: the load areas whose box holds it note that it is loading. Returns
    /// whether the chunk is to be loaded, by a task that generates it and hands it to
    /// [`Terrain::finished_loading_chunk`]
    pub fn load_chunk(&mut self, chunk_pos: ChunkPosition) -> (r: bool)
        requires
            old(self).wf(),
        ensures
            final(self).wf(),
            r == forall|k: int| 0 <= k < old(self).areas_spec().len() ==> #[trigger] old(self).areas_spec()[k].state_of(chunk_pos) is Unloaded,
            r ==> areas_marked(old(self).areas_spec(), final(self).areas_spec(), chunk_pos, ChunkState::Loading(chunk_pos)),
            areas_kept_apart_from_states(old(self).areas_spec(), final(self).areas_spec()),
            !r ==> *final(self) == *old(self),
            final(self).chunks_spec() == old(self).chunks_spec(),
            final(self).events_spec() == old(self).events_spec(),
    {
        // don't load a chunk if it is already loaded or loading
        let mut k: usize = 0;
        while k < self.load_areas.len()
            invariant
                self.wf(),
                k <= self.areas_spec().len(),
                forall|j: int| 0 <= j < k ==> #[trigger] self.areas_spec()[j].state_of(chunk_pos) is Unloaded,
            decreases self.areas_spec().len() - k,
        {
            if !self.load_areas[k].is_unloaded(&chunk_pos) {
                return false;
            }
            k = k + 1;
        }
        // inform the load areas that the chunk is loading
        self.mark_in_areas(&chunk_pos, ChunkState::Loading(chunk_pos));
        true
    }

    /// Called once a chunk has finished loading: the chunk is added to the terrain if
    /// it is still within the shape of some load area (`within_some_area`; the area may
    /// have moved since the chunk was queued for loading), and the load areas whose box
    /// holds it note that it is loaded
    pub fn finished_loading_chunk(&mut self, chunk: Chunk, within_some_area: bool)
        requires
            old(self).wf(),
            chunk.wf(),
        ensures
            final(self).wf(),
            !within_some_area ==> *final(self) == *old(self),
            within_some_area ==> exists|i: ChunkIndex| #[trigger] stored_as(*old(self), *final(self), chunk, i),
    {
        if !within_some_area {
            return;
        }
        let chunk_pos = chunk.position();
        let chunk_index = arena_insert(&mut self.chunks, chunk);
        proof {
            assert forall|k: int| 0 <= k < self.areas_spec().len() implies (#[trigger] self.areas_spec()[k]).wf() by {
                assert(old(self).areas_spec()[k].wf());
            }
            assert forall|i: ChunkIndex| #[trigger] self.chunks_spec().contains_key(i) implies self.chunks_spec()[i].wf() by {
                if i != chunk_index {
                    assert(old(self).chunks_spec().contains_key(i));
                }
            }
        }
        // inform the load areas that the chunk is loaded
        self.mark_in_areas(&chunk_pos, ChunkState::Loaded(chunk_pos, chunk_index));
        self.events.push(TerrainEvent::ChunkLoaded(chunk_pos));
        proof {
            lemma_wf_frame(*self, *self);
            assert(stored_as(*old(self), *self, chunk, chunk_index));
        }
    }

    /// Unload the chunk stored under the given index: the load areas whose box holds it
    /// note that it is unloaded
    pub fn unload_chunk(&mut self, chunk_index: ChunkIndex)
        requires
            old(self).wf(),
            old(self).chunks_spec().contains_key(chunk_index),
        ensures
            final(self).wf(),
            ({
                let c = old(self).chunks_spec()[chunk_index].position_spec();
                &&& final(self).chunks_spec() == old(self).chunks_spec().remove(chunk_index)
                &&& areas_marked(old(self).areas_spec(), final(self).areas_spec(), c, ChunkState::Unloaded)
                &&& final(self).events_spec() == old(self).events_spec().push(TerrainEvent::ChunkUnloaded(c))
            }),
    {
        let chunk_pos = match arena_remove(&mut self.chunks, chunk_index) {
            Some(chunk) => chunk.position(),
            None => {
                return;
            },
        };
        proof {
            assert forall|k: int| 0 <= k < self.areas_spec().len() implies (#[trigger] self.areas_spec()[k]).wf() by {
                assert(old(self).areas_spec()[k].wf());
            }
            assert forall|i: ChunkIndex| #[trigger] self.chunks_spec().contains_key(i) implies self.chunks_spec()[i].wf() by {
                assert(old(self).chunks_spec().contains_key(i));
            }
        }
        // inform the load areas that the chunk is unloaded
        self.mark_in_areas(&chunk_pos, ChunkState::Unloaded);
        self.events.push(TerrainEvent::ChunkUnloaded(chunk_pos));
        proof {
            lemma_wf_frame(*self, *self);
        }
    }


    /// Called each frame to check for new chunks to load: `positions` are the chunks
    /// within the shape of each dirty load area, area by area. Each of them that no load
    /// area has loaded or loading is marked as loading in the areas whose box holds it,
    /// and returned, once, to be loaded
    pub fn check_chunks_to_load(&mut self, positions: &[ChunkPosition]) -> (r: Vec<ChunkPosition>)
        requires
            old(self).wf(),
            forall|j: int| 0 <= j < positions@.len() ==> in_some_box(old(self).areas_spec(), #[trigger] positions@[j]),
        ensures
            final(self).wf(),
            final(self).chunks_spec() == old(self).chunks_spec(),
            final(self).events_spec() == old(self).events_spec(),
            r@ == first_unloaded(old(self).areas_spec(), positions@),
            forall|p: ChunkPosition| #[trigger] r@.contains(p) <==> positions@.contains(p) && all_unloaded(old(self).areas_spec(), p),
            r@.no_duplicates(),
            areas_kept_apart_from_states(old(self).areas_spec(), final(self).areas_spec()),
            forall|k: int, p: ChunkPosition|
                0 <= k < old(self).areas_spec().len() && #[trigger] r@.contains(p) && old(self).areas_spec()[k].within_bounds_spec(p)
                    ==> #[trigger] final(self).areas_spec()[k].state_of(p) == ChunkState::Loading(p),
            forall|k: int, q: ChunkPosition|
                0 <= k < old(self).areas_spec().len() && !r@.contains(q) ==> #[trigger] final(self).areas_spec()[k].state_of(q)
                    == old(self).areas_spec()[k].state_of(q),
    {
        let ghost areas0 = self.areas_spec();
        let mut to_load: Vec<ChunkPosition> = Vec::new();
        let mut n: usize = 0;
        while n < positions.len()
            invariant
                self.wf(),
                areas0 == old(self).areas_spec(),
                forall|k: int| 0 <= k < areas0.len() ==> (#[trigger] areas0[k]).wf(),
                n <= positions@.len(),
                self.chunks_spec() == old(self).chunks_spec(),
                self.events_spec() == old(self).events_spec(),
                forall|j: int| 0 <= j < positions@.len() ==> in_some_box(areas0, #[trigger] positions@[j]),
                forall|p: ChunkPosition|
                    #[trigger] to_load@.contains(p) <==> positions@.subrange(0, n as int).contains(p) && all_unloaded(areas0, p),
                to_load@ == first_unloaded(areas0, positions@.subrange(0, n as int)),
                to_load@.no_duplicates(),
                areas_kept_apart_from_states(areas0, self.areas_spec()),
                forall|k: int, p: ChunkPosition|
                    0 <= k < areas0.len() && #[trigger] to_load@.contains(p) && areas0[k].within_bounds_spec(p)
                        ==> #[trigger] self.areas_spec()[k].state_of(p) == ChunkState::Loading(p),
                forall|k: int, q: ChunkPosition|
                    0 <= k < areas0.len() && !to_load@.contains(q) ==> #[trigger] self.areas_spec()[k].state_of(q)
                        == areas0[k].state_of(q),
            decreases positions@.len() - n,
        {
            let p = positions[n];
            let ghost before = self.areas_spec();
            let ghost list_before = to_load@;
            let loaded = self.load_chunk(p);
            proof {
                assert(positions@[n as int] == p);
                assert(in_some_box(areas0, p));
                let k0 = choose|k: int| 0 <= k < areas0.len() && #[trigger] areas0[k].within_bounds_spec(p);
                if list_before.contains(p) {
                    assert(before[k0].state_of(p) == ChunkState::Loading(p));
                    assert(!loaded);
                } else {
                    assert forall|k: int| 0 <= k < areas0.len() implies #[trigger] before[k].state_of(p) == areas0[k].state_of(p) by {}
                    if loaded {
                        assert forall|k: int| 0 <= k < areas0.len() implies #[trigger] areas0[k].state_of(p) is Unloaded by {
                            assert(before[k].state_of(p) is Unloaded);
                        }
                        assert(all_unloaded(areas0, p));
                    } else {
                        let k1 = choose|k: int| 0 <= k < before.len() && !(#[trigger] before[k].state_of(p) is Unloaded);
                        assert(!(areas0[k1].state_of(p) is Unloaded));
                        assert(!all_unloaded(areas0, p));
                    }
                }
            }
            if loaded {
                to_load.push(p);
                proof {
                    assert forall|k: int, q: ChunkPosition| 0 <= k < areas0.len() && q != p implies #[trigger] self.areas_spec()[k].state_of(q)
                        == before[k].state_of(q) by {
                        assert(area_marked(before[k], self.areas_spec()[k], p, ChunkState::Loading(p)));
                        lemma_area_marked_lookup(before[k], self.areas_spec()[k], p, ChunkState::Loading(p), q);
                    }
                    assert forall|k: int| 0 <= k < areas0.len() && areas0[k].within_bounds_spec(p) implies #[trigger] self.areas_spec()[k].state_of(p)
                        == ChunkState::Loading(p) by {
                        assert(area_marked(before[k], self.areas_spec()[k], p, ChunkState::Loading(p)));
                        assert(before[k].within_bounds_spec(p));
                        lemma_area_marked_lookup(before[k], self.areas_spec()[k], p, ChunkState::Loading(p), p);
                    }
                    assert(to_load@.no_duplicates()) by {
                        assert forall|i: int, j: int| 0 <= i < to_load@.len() && 0 <= j < to_load@.len() && i != j implies to_load@[i]
                            != to_load@[j] by {
                            if i < list_before.len() && j < list_before.len() {
                                assert(to_load@[i] == list_before[i] && to_load@[j] == list_before[j]);
                            } else if i < list_before.len() {
                                assert(list_before.contains(to_load@[i]));
                            } else {
                                assert(list_before.contains(to_load@[j]));
                            }
                        }
                    }
                    assert forall|q: ChunkPosition| #[trigger] to_load@.contains(q) && q != p implies list_before.contains(q) by {
                        let j = choose|j: int| 0 <= j < to_load@.len() && to_load@[j] == q;
                        assert(to_load@[j] == list_before[j]);
                    }
                    assert forall|q: ChunkPosition| #[trigger] list_before.contains(q) implies to_load@.contains(q) by {
                        let j = choose|j: int| 0 <= j < list_before.len() && list_before[j] == q;
                        assert(to_load@[j] == q);
                    }
                    assert(to_load@[list_before.len() as int] == p);
                }
            }
            proof {
                assert(positions@.subrange(0, n as int + 1) == positions@.subrange(0, n as int).push(p));
                assert forall|q: ChunkPosition| #[trigger] to_load@.contains(q) <==> positions@.subrange(0, n as int + 1).contains(q)
                    && all_unloaded(areas0, q) by {
                    let prefix = positions@.subrange(0, n as int);
                    assert(list_before.contains(q) <==> prefix.contains(q) && all_unloaded(areas0, q));
                    if q == p {
                        assert(positions@.subrange(0, n as int + 1)[n as int] == p);
                        if !loaded {
                            assert(to_load@ == list_before);
                        }
                    } else {
                        if loaded {
                            assert(to_load@.contains(q) <==> list_before.contains(q));
                        } else {
                            assert(to_load@ == list_before);
                        }
                        if positions@.subrange(0, n as int + 1).contains(q) {
                            let j = choose|j: int| 0 <= j < n + 1 && #[trigger] positions@.subrange(0, n as int + 1)[j] == q;
                            assert(prefix[j] == q);
                        }
                        if prefix.contains(q) {
                            let j = choose|j: int| 0 <= j < n && #[trigger] prefix[j] == q;
                            assert(positions@.subrange(0, n as int + 1)[j] == q);
                        }
                    }
                }
                assert forall|k: int| 0 <= k < areas0.len() implies {
                    &&& (#[trigger] self.areas_spec()[k]).wf()
                    &&& self.areas_spec()[k].position_spec() == areas0[k].position_spec()
                    &&& self.areas_spec()[k].size_spec() == areas0[k].size_spec()
                    &&& self.areas_spec()[k].shape_spec() == areas0[k].shape_spec()
                    &&& self.areas_spec()[k].state_spec() == areas0[k].state_spec()
                } by {
                    assert(before[k].position_spec() == areas0[k].position_spec());
                }
                let prefix1 = positions@.subrange(0, n as int + 1);
                assert(prefix1.drop_last() == positions@.subrange(0, n as int));
                assert(prefix1.last() == p);
                if loaded {
                    assert(to_load@ == list_before.push(p));
                }
            }
            n = n + 1;
        }
        proof {
            assert(positions@.subrange(0, positions@.len() as int) == positions@);
        }
        to_load
    }


    /// Called each frame to check if any chunks should be unloaded: when some load area
    /// is dirty, each chunk of `unload_candidates` (the chunks outside the shape of every
    /// load area) that is still loaded is unloaded
    pub fn check_chunks_to_unload(&mut self, unload_candidates: &[ChunkIndex])
        requires
            old(self).wf(),
        ensures
            final(self).wf(),
            !any_dirty(old(self).areas_spec()) ==> *final(self) == *old(self),
            any_dirty(old(self).areas_spec()) ==> unloaded_exactly(*old(self), *final(self), unload_candidates@),
    {
        let mut any_area_dirty = false;
        let mut k: usize = 0;
        while k < self.load_areas.len()
            invariant
                k <= self.areas_spec().len(),
                any_area_dirty == exists|j: int| 0 <= j < k && #[trigger] self.areas_spec()[j].state_spec() == LoadAreaState::Dirty,
            decreases self.areas_spec().len() - k,
        {
            if self.load_areas[k].state() == LoadAreaState::Dirty {
                any_area_dirty = true;
            }
            k = k + 1;
        }
        if !any_area_dirty {
            return;
        }
        let ghost t0 = *self;
        let mut m: usize = 0;
        while m < unload_candidates.len()
            invariant
                self.wf(),
                t0.wf(),
                t0 == *old(self),
                m <= unload_candidates@.len(),
                unloaded_exactly(t0, *self, unload_candidates@.subrange(0, m as int)),
            decreases unload_candidates@.len() - m,
        {
            let chunk_index = unload_candidates[m];
            let ghost before = *self;
            let ghost cands = unload_candidates@.subrange(0, m as int);
            let ghost cands1 = unload_candidates@.subrange(0, m as int + 1);
            proof {
                assert(cands1 == cands.push(chunk_index));
            }
            if arena_contains(&self.chunks, chunk_index) {
                self.unload_chunk(chunk_index);
                proof {
                    lemma_unload_step(t0, before, *self, cands, chunk_index);
                }
            } else {
                proof {
                    lemma_skip_step(t0, *self, cands, chunk_index);
                }
            }
            m = m + 1;
        }
        proof {
            assert(unload_candidates@.subrange(0, unload_candidates@.len() as int) == unload_candidates@);
        }
    }


    /// Mark every load area as clean, once its chunks were checked
    pub fn mark_areas_clean(&mut self)
        requires
            old(self).wf(),
        ensures
            final(self).wf(),
            final(self).areas_spec().len() == old(self).areas_spec().len(),
            forall|k: int|
                0 <= k < old(self).areas_spec().len() ==> {
                    let a0 = old(self).areas_spec()[k];
                    let a1 = #[trigger] final(self).areas_spec()[k];
                    &&& a1.state_spec() == LoadAreaState::Clean
                    &&& a1.position_spec() == a0.position_spec()
                    &&& a1.size_spec() == a0.size_spec()
                    &&& a1.shape_spec() == a0.shape_spec()
                    &&& forall|c: ChunkPosition| #[trigger] a1.state_of(c) == a0.state_of(c)
                },
            final(self).chunks_spec() == old(self).chunks_spec(),
            final(self).events_spec() == old(self).events_spec(),
    {
        let mut k: usize = 0;
        while k < self.load_areas.len()
            invariant
                k <= self.areas_spec().len(),
                self.areas_spec().len() == old(self).areas_spec().len(),
                forall|j: int| 0 <= j < self.areas_spec().len() ==> (#[trigger] self.areas_spec()[j]).wf(),
                forall|j: int|
                    0 <= j < k ==> {
                        let a0 = old(self).areas_spec()[j];
                        let a1 = #[trigger] self.areas_spec()[j];
                        &&& a1.state_spec() == LoadAreaState::Clean
                        &&& a1.position_spec() == a0.position_spec()
                        &&& a1.size_spec() == a0.size_spec()
                        &&& a1.shape_spec() == a0.shape_spec()
                        &&& forall|c: ChunkPosition| #[trigger] a1.state_of(c) == a0.state_of(c)
                    },
                forall|j: int| k <= j < self.areas_spec().len() ==> #[trigger] self.areas_spec()[j] == old(self).areas_spec()[j],
                self.chunks_spec() == old(self).chunks_spec(),
                self.events_spec() == old(self).events_spec(),
            decreases self.areas_spec().len() - k,
        {
            let ghost before = self.areas_spec();
            self.load_areas[k].set_state(LoadAreaState::Clean);
            proof {
                assert forall|j: int| 0 <= j < self.areas_spec().len() && j != k implies #[trigger] self.areas_spec()[j] == before[j] by {}
                let a0 = old(self).areas_spec()[k as int];
                let a1 = self.areas_spec()[k as int];
                assert forall|c: ChunkPosition| #[trigger] a1.state_of(c) == a0.state_of(c) by {
                    if a0.within_bounds_spec(c) {
                        assert(a1.slot_state(a0.slot(c)) == a0.slot_state(a0.slot(c)));
                    }
                }
            }
            k = k + 1;
        }
        proof {
            lemma_wf_frame(*self, *self);
            assert forall|i: ChunkIndex| #[trigger] self.chunks_spec().contains_key(i) implies self.chunks_spec()[i].wf() by {
                assert(old(self).chunks_spec().contains_key(i));
            }
        }
    }

    /// Move load area `load_area_index` so that its lower corner is at `pos`; it is
    /// marked dirty if it moved
    pub fn set_load_area_pos(&mut self, load_area_index: usize, pos: ChunkPosition)
        requires
            old(self).wf(),
            load_area_index < old(self).areas_spec().len(),
        ensures
            final(self).wf(),
            final(self).areas_spec().len() == old(self).areas_spec().len(),
            ({
                let a0 = old(self).areas_spec()[load_area_index as int];
                let a1 = final(self).areas_spec()[load_area_index as int];
                &&& a1.position_spec() == pos
                &&& a1.state_spec() == if pos == a0.position_spec() {
                    a0.state_spec()
                } else {
                    LoadAreaState::Dirty
                }
                &&& a1.size_spec() == a0.size_spec()
                &&& a1.shape_spec() == a0.shape_spec()
                &&& forall|i: int| #[trigger] a1.slot_state(i) == a0.slot_state(i)
            }),
            forall|k: int|
                0 <= k < old(self).areas_spec().len() && k != load_area_index ==> #[trigger] final(self).areas_spec()[k]
                    == old(self).areas_spec()[k],
            final(self).chunks_spec() == old(self).chunks_spec(),
            final(self).events_spec() == old(self).events_spec(),
    {
        self.load_areas[load_area_index].set_pos(pos);
        proof {
            assert forall|k: int| 0 <= k < self.areas_spec().len() implies (#[trigger] self.areas_spec()[k]).wf() by {
                assert(old(self).areas_spec()[k].wf());
            }
            assert forall|i: ChunkIndex| #[trigger] self.chunks_spec().contains_key(i) implies self.chunks_spec()[i].wf() by {
                assert(old(self).chunks_spec().contains_key(i));
            }
        }
    }

}

/// Storing a well-formed chunk keeps terrain well-formed.
proof fn lemma_wf_insert(t0: Terrain, t1: Terrain, i: ChunkIndex, chunk: Chunk)
    requires
        t0.wf(),
        chunk.wf(),
        t1.chunks_spec() == t0.chunks_spec().insert(i, chunk),
        t1.areas_spec() == t0.areas_spec(),
    ensures
        t1.wf(),
{
    assert forall|k: int| 0 <= k < t1.areas_spec().len() implies (#[trigger] t1.areas_spec()[k]).wf() by {
        assert(t0.areas_spec()[k].wf());
    }
    assert forall|j: ChunkIndex| #[trigger] t1.chunks_spec().contains_key(j) implies t1.chunks_spec()[j].wf() by {
        if j != i {
            assert(t0.chunks_spec().contains_key(j));
        }
    }
}

/// Terrain whose chunks and areas are those of well-formed terrain is well-formed.
proof fn lemma_wf_frame(t0: Terrain, t1: Terrain)
    requires
        t0.wf(),
        t1.chunks_spec() == t0.chunks_spec(),
        t1.areas_spec() == t0.areas_spec(),
    ensures
        t1.wf(),
{
    assert forall|k: int| 0 <= k < t1.areas_spec().len() implies (#[trigger] t1.areas_spec()[k]).wf() by {
        assert(t0.areas_spec()[k].wf());
    }
    assert forall|i: ChunkIndex| #[trigger] t1.chunks_spec().contains_key(i) implies t1.chunks_spec()[i].wf() by {
        assert(t0.chunks_spec().contains_key(i));
    }
}

} // verus!
