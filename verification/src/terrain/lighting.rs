//! Light values and their propagation within a chunk.

pub mod emitted_light;
pub mod skylight;

use crate::terrain::chunk::light_store::ChunkLightStore;
use crate::terrain::lighting::emitted_light::EmittedLight;
use crate::terrain::lighting::skylight::Skylight;
use crate::terrain::position_types::LocalBlockPosition;
use crate::util::face::{face_normal_spec, FaceIndex};
use crate::util::vector::UVec3;
use vstd::prelude::*;

verus! {

/// Per-block light storage that the propagation algorithms read and write.
pub trait LightStore<LightValue> {
    /// The light value at array index `i`.
    spec fn light_at(&self, i: int) -> LightValue;

    /// The store is in a consistent state.
    spec fn store_wf(&self) -> bool;

    /// Values that can be written without disturbing other data.
    spec fn storable(value: LightValue) -> bool;

    /// Everything else the store holds (the light of other kinds), which writes of
    /// this kind leave alone.
    spec fn rest(&self) -> Seq<int>;

    /// The light value at the given position.
    fn read(&self, pos: LocalBlockPosition) -> (r: LightValue)
        requires
            self.store_wf(),
            pos.is_valid(),
        ensures
            r == self.light_at(pos.index()),
            Self::storable(r),
    ;

    /// Replaces the light value at the given position, leaving every other position unchanged.
    fn write(&mut self, pos: LocalBlockPosition, value: LightValue)
        requires
            old(self).store_wf(),
            pos.is_valid(),
            Self::storable(value),
        ensures
            final(self).store_wf(),
            final(self).light_at(pos.index()) == value,
            final(self).rest() == old(self).rest(),
            forall|i: int|
                0 <= i < 32768 && i != pos.index() ==> final(self).light_at(i) == old(self).light_at(
                    i,
                ),
    ;
}

impl LightStore<EmittedLight> for ChunkLightStore {
    open spec fn light_at(&self, i: int) -> EmittedLight {
        EmittedLight(self.emitted_at(i))
    }

    open spec fn store_wf(&self) -> bool {
        self.wf()
    }

    open spec fn storable(value: EmittedLight) -> bool {
        value@ < 0x1000
    }

    open spec fn rest(&self) -> Seq<int> {
        Seq::new(32768, |i: int| self.sky_at(i) as int)
    }

    fn read(&self, pos: LocalBlockPosition) -> (r: EmittedLight) {
        self.get_emitted_light(pos)
    }

    fn write(&mut self, pos: LocalBlockPosition, value: EmittedLight) {
        self.set_emitted_light(pos, value);
        assert(LightStore::<EmittedLight>::rest(self) =~= LightStore::<EmittedLight>::rest(old(self)));
    }
}

impl LightStore<Skylight> for ChunkLightStore {
    open spec fn light_at(&self, i: int) -> Skylight {
        Skylight(self.sky_at(i))
    }

    open spec fn store_wf(&self) -> bool {
        self.wf()
    }

    open spec fn storable(value: Skylight) -> bool {
        value.0 < 16
    }

    open spec fn rest(&self) -> Seq<int> {
        Seq::new(32768, |i: int| self.emitted_at(i) as int)
    }

    fn read(&self, pos: LocalBlockPosition) -> (r: Skylight) {
        self.get_skylight(pos)
    }

    fn write(&mut self, pos: LocalBlockPosition, value: Skylight) {
        self.set_skylight(pos, value);
        assert(LightStore::<Skylight>::rest(self) =~= LightStore::<Skylight>::rest(old(self)));
    }
}

/// One pending step of light propagation: bring `light` to `position`.
#[derive(Clone, Copy, Debug)]
pub struct LightPropagationStep<LightValue> {
    pub position: LocalBlockPosition,
    pub light: LightValue,
    pub is_repair_step: bool,
}

/// One pending step of shadow propagation: clear light at `position`, spreading
/// `depth` more blocks.
#[derive(Clone, Copy, Debug)]
pub struct ShadowPropagationStep {
    pub position: LocalBlockPosition,
    pub depth: u32,
}

/// A light or shadow step to be applied in a neighbouring chunk.
#[derive(Clone, Copy, Debug)]
pub enum LightUpdate {
    EmittedLight(LightPropagationStep<EmittedLight>),
    EmittedLightShadow(ShadowPropagationStep),
    Skylight(LightPropagationStep<Skylight>),
}

/// The block next to `p` across face `f`, if it lies in the same chunk.
pub open spec fn neighbour_spec(p: LocalBlockPosition, f: int) -> Option<LocalBlockPosition> {
    let n = face_normal_spec(f);
    let x = p.0.x + n.x;
    let y = p.0.y + n.y;
    let z = p.0.z + n.z;
    if 0 <= x < 32 && 0 <= y < 32 && 0 <= z < 32 {
        Some(LocalBlockPosition(UVec3 { x: x as u32, y: y as u32, z: z as u32 }))
    } else {
        None
    }
}

/// The position in the neighbouring chunk of the block next to `p` across face `f`.
pub open spec fn wrapped_neighbour_spec(p: LocalBlockPosition, f: int) -> LocalBlockPosition {
    let n = face_normal_spec(f);
    LocalBlockPosition(
        UVec3 {
            x: ((p.0.x + n.x) % 32) as u32,
            y: ((p.0.y + n.y) % 32) as u32,
            z: ((p.0.z + n.z) % 32) as u32,
        },
    )
}

/// Neighbour positions computed with `try_add` and `wrapping_add` match the specs.
pub proof fn lemma_neighbour_valid(p: LocalBlockPosition, f: int)
    requires
        p.is_valid(),
        0 <= f < 6,
    ensures
        neighbour_spec(p, f) matches Some(q) ==> q.is_valid() && q.index() != p.index(),
        wrapped_neighbour_spec(p, f).is_valid(),
{
    crate::terrain::position_types::lemma_array_index_roundtrip(p);
    if let Some(q) = neighbour_spec(p, f) {
        crate::terrain::position_types::lemma_array_index_roundtrip(q);
    }
}

/// Stepping back across the opposite face returns to the block stepped from.
pub proof fn lemma_neighbour_back(p: LocalBlockPosition, f: int)
    requires
        p.is_valid(),
        0 <= f < 6,
        neighbour_spec(p, f) is Some,
    ensures
        neighbour_spec(neighbour_spec(p, f)->0, (f + 3) % 6) == Some(p),
{
}

} // verus!
