//! Storage for a chunk's light values that only allocates what it needs: nothing
//! before light data arrives, one value for uniform skylight, half a byte per block
//! for skylight alone, and two bytes per block once emitted light appears.

use crate::terrain::chunk::{CHUNK_SIZE_CUBED, CHUNK_SIZE_SQUARED};
use crate::terrain::lighting::emitted_light::EmittedLight;
use crate::terrain::lighting::skylight::Skylight;
use crate::terrain::position_types::LocalBlockPosition;
use vstd::prelude::*;

verus! {

/// Two skylight values packed in 8 bits
#[derive(Clone, Copy, Debug, PartialEq, Eq, Structural)]
pub struct DoubleSkylight(pub u8);

impl DoubleSkylight {
    /// The value in the low four bits.
    pub open spec fn lower_spec(self) -> u8 {
        self.0 & 15
    }

    /// The value in the high four bits.
    pub open spec fn upper_spec(self) -> u8 {
        (self.0 >> 4u8) & 15
    }

    /// Packs two skylight values.
    pub fn pack(lower: Skylight, upper: Skylight) -> (r: Self)
        requires
            lower.0 < 16,
            upper.0 < 16,
        ensures
            r.lower_spec() == lower.0,
            r.upper_spec() == upper.0,
    {
        let l = lower.0;
        let u = upper.0;
        proof {
            assert(((l | (u << 4u8)) & 15) == l && (((l | (u << 4u8)) >> 4u8) & 15) == u)
                by (bit_vector)
                requires
                    l < 16,
                    u < 16,
            ;
        }
        Self(l | (u << 4))
    }

    /// The value in the low four bits.
    pub fn get_lower(self) -> (r: Skylight)
        ensures
            r.0 == self.lower_spec(),
            r.0 < 16,
    {
        let v = self.0;
        proof {
            assert(v & 15 < 16) by (bit_vector);
        }
        Skylight(self.0 & 0b1111)
    }

    /// The value in the high four bits.
    pub fn get_upper(self) -> (r: Skylight)
        ensures
            r.0 == self.upper_spec(),
            r.0 < 16,
    {
        let v = self.0;
        proof {
            assert((v >> 4u8) & 15 < 16) by (bit_vector);
        }
        Skylight((self.0 >> 4) & 0b1111)
    }

    /// Replaces the value in the low four bits.
    pub fn with_lower(self, lower: Skylight) -> (r: Self)
        requires
            lower.0 < 16,
        ensures
            r.lower_spec() == lower.0,
            r.upper_spec() == self.upper_spec(),
    {
        let v = self.0;
        let l = lower.0;
        proof {
            assert((((v & 0b11110000u8) | l) & 15) == l && ((((v & 0b11110000u8) | l) >> 4u8) & 15)
                == ((v >> 4u8) & 15)) by (bit_vector)
                requires
                    l < 16,
            ;
        }
        Self((self.0 & 0b11110000) | lower.0)
    }

    /// Replaces the value in the high four bits.
    pub fn with_upper(self, lower: Skylight) -> (r: Self)
        requires
            lower.0 < 16,
        ensures
            r.upper_spec() == lower.0,
            r.lower_spec() == self.lower_spec(),
    {
        let v = self.0;
        let u = lower.0;
        proof {
            assert((((v & 0b00001111u8) | (u << 4u8)) & 15) == (v & 15) && ((((v & 0b00001111u8) | (u
                << 4u8)) >> 4u8) & 15) == u) by (bit_vector)
                requires
                    u < 16,
            ;
        }
        Self((self.0 & 0b00001111) | (lower.0 << 4))
    }
}

/// Skylight and emission values packed in 16 bits
#[derive(Clone, Copy, Debug, PartialEq, Eq, Structural)]
pub struct EmissionAndSkylight(pub u16);

impl EmissionAndSkylight {
    /// The emitted light in the low twelve bits.
    pub open spec fn emission_spec(self) -> u16 {
        self.0 & 0x0fff
    }

    /// The skylight in the high four bits.
    pub open spec fn skylight_spec(self) -> u8 {
        ((self.0 >> 12u16) & 15) as u8
    }

    /// Packs emitted light and skylight.
    pub fn pack(emission: EmittedLight, skylight: Skylight) -> (r: Self)
        requires
            emission@ < 0x1000,
            skylight.0 < 16,
        ensures
            r.emission_spec() == emission@,
            r.skylight_spec() == skylight.0,
    {
        let e = emission.0;
        let s = skylight.0 as u16;
        proof {
            assert(((e | (s << 12u16)) & 0x0fff) == e && (((e | (s << 12u16)) >> 12u16) & 15) == s)
                by (bit_vector)
                requires
                    e < 0x1000,
                    s < 16,
            ;
        }
        Self(emission.0 | ((skylight.0 as u16) << 12))
    }

    /// The emitted light in the low twelve bits.
    pub fn get_emission(self) -> (r: EmittedLight)
        ensures
            r@ == self.emission_spec(),
    {
        EmittedLight(self.0 & 0b0000_1111_1111_1111)
    }

    /// The skylight in the high four bits.
    pub fn get_skylight(self) -> (r: Skylight)
        ensures
            r.0 == self.skylight_spec(),
            r.0 < 16,
    {
        let v = self.0;
        proof {
            assert((v >> 12u16) & 15 < 16) by (bit_vector);
        }
        Skylight(((self.0 >> 12) & 0b1111) as u8)
    }

    /// Replaces the emitted light.
    pub fn with_emission(self, emission: EmittedLight) -> (r: Self)
        requires
            emission@ < 0x1000,
        ensures
            r.emission_spec() == emission@,
            r.skylight_spec() == self.skylight_spec(),
    {
        let v = self.0;
        let e = emission.0;
        proof {
            assert((((v & 0xf000u16) | e) & 0x0fff) == e && ((((v & 0xf000u16) | e) >> 12u16) & 15)
                == ((v >> 12u16) & 15)) by (bit_vector)
                requires
                    e < 0x1000,
            ;
        }
        let mut r = self;
        r.0 = r.0 & 0b1111_0000_0000_0000;
        r.0 = r.0 | emission.0;
        r
    }

    /// Replaces the skylight.
    pub fn with_skylight(self, skylight: Skylight) -> (r: Self)
        requires
            skylight.0 < 16,
        ensures
            r.skylight_spec() == skylight.0,
            r.emission_spec() == self.emission_spec(),
    {
        let v = self.0;
        let s = skylight.0 as u16;
        proof {
            assert((((v & 0x0fffu16) | (s << 12u16)) & 0x0fff) == (v & 0x0fff) && ((((v & 0x0fffu16)
                | (s << 12u16)) >> 12u16) & 15) == s) by (bit_vector)
                requires
                    s < 16,
            ;
        }
        let mut r = self;
        r.0 = r.0 & 0b0000_1111_1111_1111;
        r.0 = r.0 | ((skylight.0 as u16) << 12);
        r
    }
}

/// A chunk's light values, in the most compact representation that holds them.
#[derive(Clone, Debug)]
pub enum ChunkLightStore {
    AwaitingLightData,
    UniformSkylight(Skylight),
    SkylightOnly(Vec<DoubleSkylight>),
    EmissionAndSkylight(Vec<EmissionAndSkylight>),
}

impl ChunkLightStore {
    /// The representation is consistent: storage of the right size and skylight
    /// levels that fit in four bits.
    pub open spec fn wf(&self) -> bool {
        match self {
            ChunkLightStore::AwaitingLightData => true,
            ChunkLightStore::UniformSkylight(s) => s.0 < 16,
            ChunkLightStore::SkylightOnly(v) => v@.len() == 16384,
            ChunkLightStore::EmissionAndSkylight(v) => v@.len() == 32768,
        }
    }

    /// Emitted light at array index `i`.
    pub open spec fn emitted_at(&self, i: int) -> u16 {
        match self {
            ChunkLightStore::EmissionAndSkylight(v) => v@[i].emission_spec(),
            _ => 0,
        }
    }

    /// Skylight at array index `i`.
    pub open spec fn sky_at(&self, i: int) -> u8 {
        match self {
            ChunkLightStore::AwaitingLightData => 0,
            ChunkLightStore::UniformSkylight(s) => s.0,
            ChunkLightStore::SkylightOnly(v) => if i % 2 == 0 {
                v@[i / 2].lower_spec()
            } else {
                v@[i / 2].upper_spec()
            },
            ChunkLightStore::EmissionAndSkylight(v) => v@[i].skylight_spec(),
        }
    }

    /// Stored values are in range: emitted light in twelve bits, skylight in four.
    pub proof fn lemma_values_bounded(&self, i: int)
        requires
            self.wf(),
        ensures
            self.emitted_at(i) < 0x1000,
            self.sky_at(i) < 16,
    {
        match self {
            ChunkLightStore::SkylightOnly(v) => {
                let x = v@[i / 2].0;
                assert(x & 15 < 16 && (x >> 4u8) & 15 < 16) by (bit_vector);
            },
            ChunkLightStore::EmissionAndSkylight(v) => {
                let x = v@[i].0;
                assert(x & 0x0fff < 0x1000 && (x >> 12u16) & 15 < 16) by (bit_vector);
            },
            _ => {},
        }
    }

    /// A store with no light data yet.
    pub fn new() -> (r: Self)
        ensures
            r == ChunkLightStore::AwaitingLightData,
            r.wf(),
    {
        Self::AwaitingLightData
    }

    /// Emitted light at the given position.
    pub fn get_emitted_light(&self, pos: LocalBlockPosition) -> (r: EmittedLight)
        requires
            self.wf(),
            pos.is_valid(),
        ensures
            r@ == self.emitted_at(pos.index()),
            r@ < 0x1000,
    {
        proof {
            crate::terrain::position_types::lemma_array_index_roundtrip(pos);
        }
        match self {
            Self::AwaitingLightData => EmittedLight(0),
            Self::UniformSkylight(_) | Self::SkylightOnly(_) => EmittedLight(0),
            Self::EmissionAndSkylight(emission_and_skylight) => {
                let v = emission_and_skylight[pos.get_array_index()].0;
                proof {
                    assert(v & 0x0fff < 0x1000) by (bit_vector);
                }
                emission_and_skylight[pos.get_array_index()].get_emission()
            },
        }
    }

    /// Skylight at the given position.
    pub fn get_skylight(&self, pos: LocalBlockPosition) -> (r: Skylight)
        requires
            self.wf(),
            pos.is_valid(),
        ensures
            r.0 == self.sky_at(pos.index()),
            r.0 < 16,
    {
        proof {
            crate::terrain::position_types::lemma_array_index_roundtrip(pos);
        }
        match self {
            Self::AwaitingLightData => Skylight(0),
            Self::UniformSkylight(skylight) => *skylight,
            Self::SkylightOnly(double_skylight) => {
                let index = pos.get_array_index();
                proof {
                    assert(index >> 1 == index / 2 && index & 1 == index % 2) by (bit_vector);
                }
                let skylight = double_skylight[index >> 1];

                if index & 1 == 0 {
                    skylight.get_lower()
                } else {
                    skylight.get_upper()
                }
            },
            Self::EmissionAndSkylight(emission_and_skylight) => {
                emission_and_skylight[pos.get_array_index()].get_skylight()
            },
        }
    }

    /// Sets the emitted light at the given position, first switching to the
    /// representation that stores emitted light if needed.
    pub fn set_emitted_light(&mut self, pos: LocalBlockPosition, value: EmittedLight)
        requires
            old(self).wf(),
            pos.is_valid(),
            value@ < 0x1000,
        ensures
            final(self).wf(),
            *final(self) is EmissionAndSkylight,
            final(self).emitted_at(pos.index()) == value@,
            forall|i: int|
                0 <= i < 32768 && i != pos.index() ==> final(self).emitted_at(i) == old(self).emitted_at(i),
            forall|i: int| 0 <= i < 32768 ==> final(self).sky_at(i) == old(self).sky_at(i),
    {
        proof {
            crate::terrain::position_types::lemma_array_index_roundtrip(pos);
        }
        let mut current = Self::AwaitingLightData;
        std::mem::swap(&mut current, self);
        let mut values = Self::into_emission_values(current);
        let ghost before = values@;
        let index = pos.get_array_index();
        let updated = values[index].with_emission(value);
        values.set(index, updated);
        *self = Self::EmissionAndSkylight(values);
        proof {
            assert forall|i: int| 0 <= i < 32768 && i != index implies #[trigger] self.emitted_at(i)
                == old(self).emitted_at(i) by {
                assert(values@[i] == before[i]);
            }
            assert forall|i: int| 0 <= i < 32768 implies #[trigger] self.sky_at(i) == old(self).sky_at(i) by {
                if i != index {
                    assert(values@[i] == before[i]);
                }
            }
        }
    }

    /// Sets the skylight at the given position, first switching to a representation
    /// that stores per-block skylight if needed.
    pub fn set_skylight(&mut self, pos: LocalBlockPosition, value: Skylight)
        requires
            old(self).wf(),
            pos.is_valid(),
            value.0 < 16,
        ensures
            final(self).wf(),
            final(self).sky_at(pos.index()) == value.0,
            forall|i: int|
                0 <= i < 32768 && i != pos.index() ==> final(self).sky_at(i) == old(self).sky_at(
                    i,
                ),
            forall|i: int| 0 <= i < 32768 ==> final(self).emitted_at(i) == old(self).emitted_at(i),
            // writing the level a uniform store already holds keeps it as it is
            *old(self) matches ChunkLightStore::UniformSkylight(s) && s.0 == value.0 ==> *final(self)
                == *old(self),
    {
        proof {
            crate::terrain::position_types::lemma_array_index_roundtrip(pos);
        }
        let is_same_uniform = match self {
            Self::UniformSkylight(skylight) => skylight.0 == value.0,
            _ => false,
        };
        if is_same_uniform {
            return ;
        }
        let mut current = Self::AwaitingLightData;
        std::mem::swap(&mut current, self);
        let index = pos.get_array_index();
        match current {
            Self::EmissionAndSkylight(values) => {
                let mut values = values;
                let updated = values[index].with_skylight(value);
                values.set(index, updated);
                *self = Self::EmissionAndSkylight(values);
            },
            other => {
                let mut pairs = Self::into_skylight_pairs(other);
                let ghost before = pairs@;
                proof {
                    assert(index >> 1 == index / 2 && index & 1 == index % 2) by (bit_vector);
                }
                let half = index >> 1;
                let old_pair = pairs[half];
                if index & 1 == 0 {
                    pairs.set(half, old_pair.with_lower(value));
                } else {
                    pairs.set(half, old_pair.with_upper(value));
                }
                *self = Self::SkylightOnly(pairs);
                proof {
                    assert forall|i: int| 0 <= i < 32768 && i != index implies #[trigger] self.sky_at(i)
                        == old(self).sky_at(i) by {
                        assert(ChunkLightStore::pair_sky(before, i) == old(self).sky_at(i));
                        if i / 2 == index / 2 {
                            assert(i % 2 != index % 2);
                        }
                    }
                }
            },
        }
    }

    /// The per-block emitted light and skylight values of a store.
    fn into_emission_values(store: Self) -> (v: Vec<EmissionAndSkylight>)
        requires
            store.wf(),
        ensures
            v@.len() == 32768,
            forall|i: int|
                #![trigger v@[i]]
                0 <= i < 32768 ==> v@[i].skylight_spec() == store.sky_at(i) && v@[i].emission_spec()
                    == store.emitted_at(i),
    {
        match store {
            Self::EmissionAndSkylight(v) => v,
            other => {
                let mut other = other;
                let promoted = other.promote_to_emission_and_skylight();
                match promoted {
                    Self::EmissionAndSkylight(v) => {
                        proof {
                            assert forall|i: int| 0 <= i < 32768 implies #[trigger] v@[i].skylight_spec()
                                == store.sky_at(i) && v@[i].emission_spec() == store.emitted_at(i) by {
                                assert(promoted.sky_at(i) == store.sky_at(i));
                                assert(promoted.emitted_at(i) == 0);
                            }
                        }
                        v
                    },
                    _ => Vec::new(),
                }
            },
        }
    }

    /// The per-block skylight values of a store without emitted light, two per byte.
    fn into_skylight_pairs(store: Self) -> (v: Vec<DoubleSkylight>)
        requires
            store.wf(),
            !(store is EmissionAndSkylight),
        ensures
            v@.len() == 16384,
            forall|i: int|
                0 <= i < 32768 ==> #[trigger] ChunkLightStore::pair_sky(v@, i) == store.sky_at(i),
            forall|i: int| 0 <= i < 32768 ==> store.emitted_at(i) == 0,
    {
        match store {
            Self::SkylightOnly(v) => v,
            other => {
                let mut other = other;
                let promoted = other.promote_to_skylight_only();
                match promoted {
                    Self::SkylightOnly(v) => {
                        proof {
                            assert forall|i: int| 0 <= i < 32768 implies #[trigger] ChunkLightStore::pair_sky(
                                v@,
                                i,
                            ) == store.sky_at(i) by {
                                assert(promoted.sky_at(i) == store.sky_at(i));
                            }
                        }
                        v
                    },
                    _ => Vec::new(),
                }
            },
        }
    }

    /// Skylight at array index `i` of two-per-byte packed values.
    pub open spec fn pair_sky(v: Seq<DoubleSkylight>, i: int) -> u8 {
        if i % 2 == 0 {
            v[i / 2].lower_spec()
        } else {
            v[i / 2].upper_spec()
        }
    }

    /// Sets every block's skylight to the maximum.
    pub fn set_full_skylight(&mut self)
        ensures
            final(self).wf(),
            *final(self) == ChunkLightStore::UniformSkylight(Skylight(15)),
            forall|i: int| 0 <= i < 32768 ==> final(self).sky_at(i) == 15,
    {
        *self = Self::UniformSkylight(Skylight(Skylight::MAX_VALUE));
    }

    /// The per-block skylight representation holding the same values.
    pub fn promote_to_skylight_only(&mut self) -> (r: Self)
        requires
            old(self).wf(),
            *old(self) is AwaitingLightData || *old(self) is UniformSkylight,
        ensures
            *final(self) == *old(self),
            r.wf(),
            r is SkylightOnly,
            forall|i: int| 0 <= i < 32768 ==> r.sky_at(i) == old(self).sky_at(i),
            forall|i: int| 0 <= i < 32768 ==> r.emitted_at(i) == old(self).emitted_at(i),
    {
        let fill = match self {
            Self::UniformSkylight(skylight) => DoubleSkylight::pack(*skylight, *skylight),
            _ => DoubleSkylight(0),
        };
        let mut v: Vec<DoubleSkylight> = Vec::new();
        let n = CHUNK_SIZE_CUBED / 2;
        while v.len() < n
            invariant
                n == 16384,
                v@.len() <= n,
                forall|j: int| 0 <= j < v@.len() ==> v@[j] == fill,
            decreases n - v@.len(),
        {
            v.push(fill);
        }
        let r = Self::SkylightOnly(v);
        proof {
            assert((0u8 & 15) == 0 && ((0u8 >> 4u8) & 15) == 0) by (bit_vector);
            assert forall|i: int| 0 <= i < 32768 implies r.sky_at(i) == old(self).sky_at(i) by {
                assert(v@[i / 2] == fill);
            }
        }
        r
    }

    /// The per-block emitted light and skylight representation holding the same values.
    pub fn promote_to_emission_and_skylight(&mut self) -> (r: Self)
        requires
            old(self).wf(),
            !(*old(self) is EmissionAndSkylight),
        ensures
            *final(self) == *old(self),
            r.wf(),
            r is EmissionAndSkylight,
            forall|i: int| 0 <= i < 32768 ==> r.sky_at(i) == old(self).sky_at(i),
            forall|i: int| 0 <= i < 32768 ==> r.emitted_at(i) == 0,
    {
        let mut v: Vec<EmissionAndSkylight> = Vec::new();
        let n = CHUNK_SIZE_CUBED;
        match self {
            Self::SkylightOnly(double_skylight) => {
                let mut k: usize = 0;
                while k < n / 2
                    invariant
                        n == 32768,
                        double_skylight@.len() == 16384,
                        k <= n / 2,
                        v@.len() == 2 * k,
                        forall|j: int|
                            0 <= j < v@.len() ==> #[trigger] v@[j].emission_spec() == 0 && v@[j].skylight_spec()
                                == (if j % 2 == 0 {
                                double_skylight@[j / 2].lower_spec()
                            } else {
                                double_skylight@[j / 2].upper_spec()
                            }),
                    decreases n / 2 - k,
                {
                    let pair = double_skylight[k];
                    let zero = EmittedLight(0);
                    v.push(EmissionAndSkylight::pack(zero, pair.get_lower()));
                    v.push(EmissionAndSkylight::pack(zero, pair.get_upper()));
                    k = k + 1;
                }
            },
            _ => {
                let sky = match self {
                    Self::UniformSkylight(skylight) => *skylight,
                    _ => Skylight(0),
                };
                let fill = EmissionAndSkylight::pack(EmittedLight(0), sky);
                while v.len() < n
                    invariant
                        n == 32768,
                        v@.len() <= n,
                        forall|j: int| 0 <= j < v@.len() ==> v@[j] == fill,
                    decreases n - v@.len(),
                {
                    v.push(fill);
                }
                proof {
                    assert forall|i: int| 0 <= i < 32768 implies v@[i].skylight_spec() == old(self).sky_at(i) && v@[i].emission_spec() == 0 by {
                        assert(v@[i] == fill);
                    }
                }
            },
        }
        let r = Self::EmissionAndSkylight(v);
        proof {
            assert forall|i: int| 0 <= i < 32768 implies r.sky_at(i) == old(self).sky_at(i)
                && r.emitted_at(i) == 0 by {
                assert(v@[i].emission_spec() == 0);
            }
        }
        r
    }
}

} // verus!
