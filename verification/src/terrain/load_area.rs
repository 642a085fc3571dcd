//! Load areas: the regions around which chunks are kept loaded, with O(1) lookup of the
//! state of each chunk they contain.

use crate::terrain::position_types::ChunkPosition;
use crate::util::size::Size3;
use crate::util::vector::{IVec3, UVec3};
use crate::terrain::chunk_arena::ChunkIndex;
use vstd::prelude::*;

verus! {
/// `c.rem_euclid(m)`: the remainder of `c` modulo `m`, between 0 and `m - 1`.
pub fn rem_euclid_i32(c: i32, m: usize) -> (r: usize)
    requires
        0 < m <= i32::MAX,
    ensures
        r == (c as int) % (m as int),
        r < m,
{
    let m64 = m as u64;
    let off: u64 = (c as i64 + 2147483648i64) as u64;
    let k = 2147483648u64 % m64;
    let a = off % m64;
    let r = (a + (m64 - k)) % m64;
    proof {
        let mi = m as int;
        let b: int = 2147483648;
        let q = b / mi;
        vstd::arithmetic::div_mod::lemma_fundamental_div_mod(b, mi);
        vstd::arithmetic::div_mod::lemma_add_mod_noop_right(mi - k, off as int, mi);
        assert(off as int + mi - k == mi * (q + 1) + c) by (nonlinear_arith)
            requires
                off as int == c + b,
                b == mi * q + k,
        ;
        vstd::arithmetic::div_mod::lemma_mod_multiples_vanish(q + 1, c as int, mi);
    }
    r as usize
}

/// `a` comes before `b` in the order a box of chunks is walked: by x, then y, then z.
pub open spec fn walked_before(a: ChunkPosition, b: ChunkPosition) -> bool {
    ||| a.0.x < b.0.x
    ||| a.0.x == b.0.x && a.0.y < b.0.y
    ||| a.0.x == b.0.x && a.0.y == b.0.y && a.0.z < b.0.z
}

/// The lower corner of a box of `size` chunks centred on the chunk `center`: `center`
/// less half the size, rounded down, on each axis.
pub fn corner_around(center: IVec3, size: Size3) -> (r: ChunkPosition)
    requires
        size.wf(),
        center.x - size.x / 2 >= i32::MIN,
        center.y - size.y / 2 >= i32::MIN,
        center.z - size.z / 2 >= i32::MIN,
    ensures
        r.0.x == center.x - size.x / 2,
        r.0.y == center.y - size.y / 2,
        r.0.z == center.z - size.z / 2,
{
    ChunkPosition::new(
        center.x - (size.x / 2) as i32,
        center.y - (size.y / 2) as i32,
        center.z - (size.z / 2) as i32,
    )
}

/// Whether the chunks of an area need to be checked for loading and unloading.
#[derive(Clone, Copy, Debug, PartialEq, Eq, Structural)]
pub enum LoadAreaState {
    Clean,
    Dirty,
}

/// The loading state of one chunk of an area.
#[derive(Clone, Copy, Debug, PartialEq, Eq, Structural)]
pub enum ChunkState {
    /// The chunk is not loaded, loading or queued for loading
    Unloaded,
    /// The chunk is loading or queued for loading
    Loading(ChunkPosition),
    /// The chunk is loaded, stored under the given index
    Loaded(ChunkPosition, ChunkIndex),
}

/// The shape of the region of chunks kept loaded around an area's centre.
#[derive(Clone, Copy, Debug, PartialEq, Eq, Structural)]
pub enum AreaShape {
    /// Chunks are loaded in a cuboid
    Cubic,
    /// Chunks are loaded in a spheriod
    Spherical,
    /// Chunks are loaded in a cylinder around the y axis
    Cylindrical,
}

/// An `LoadArea` represents a region of terrain that is loaded in memory.
/// The `LoadArea` provides O(1) lookup for the chunks it contains: the state of the
/// chunk at `p` is kept in slot `p mod size` of a grid, so that moving the area
/// keeps the slots of the chunks it still contains.
#[derive(Clone, Debug)]
pub struct LoadArea {
    /// State of each chunk in the area
    chunk_states: Vec<ChunkState>,
    /// Position of the lower corner of the area in chunks
    position: ChunkPosition,
    /// Size of the area in chunks
    size: Size3,
    /// Shape of the area
    shape: AreaShape,
    /// Status of the area with regards to chunk loading
    state: LoadAreaState,
}

impl LoadArea {
    /// One state per chunk of the area's box.
    pub closed spec fn wf(&self) -> bool {
        &&& self.size.wf()
        &&& self.chunk_states@.len() == self.size.product_spec()
    }

    /// Position of the lower corner of the area, in chunks.
    pub closed spec fn position_spec(&self) -> ChunkPosition {
        self.position
    }

    /// Size of the area's box, in chunks.
    pub closed spec fn size_spec(&self) -> Size3 {
        self.size
    }

    /// The shape of the area.
    pub closed spec fn shape_spec(&self) -> AreaShape {
        self.shape
    }

    /// Whether the area needs its chunks checked.
    pub closed spec fn state_spec(&self) -> LoadAreaState {
        self.state
    }

    /// `c` lies in the area's box.
    pub open spec fn within_bounds_spec(&self, c: ChunkPosition) -> bool {
        let p = self.position_spec();
        let s = self.size_spec();
        &&& 0 <= c.0.x - p.0.x < s.x
        &&& 0 <= c.0.y - p.0.y < s.y
        &&& 0 <= c.0.z - p.0.z < s.z
    }

    /// The slot holding the state of the chunk at `c`: its position modulo the size.
    pub open spec fn slot(&self, c: ChunkPosition) -> int {
        let s = self.size_spec();
        s.flatten_spec((c.0.x as int) % (s.x as int), (c.0.y as int) % (s.y as int), (c.0.z as int) % (s.z as int))
    }

    /// The state stored in slot `i`.
    pub closed spec fn slot_state(&self, i: int) -> ChunkState {
        self.chunk_states@[i]
    }

    /// The stored state for the chunk at `c`, if it is about that chunk.
    pub open spec fn state_of(&self, c: ChunkPosition) -> ChunkState {
        if self.within_bounds_spec(c) {
            match self.slot_state(self.slot(c)) {
                ChunkState::Loading(p) => if p == c { ChunkState::Loading(p) } else { ChunkState::Unloaded },
                ChunkState::Loaded(p, i) => if p == c { ChunkState::Loaded(p, i) } else { ChunkState::Unloaded },
                ChunkState::Unloaded => ChunkState::Unloaded,
            }
        } else {
            ChunkState::Unloaded
        }
    }

    /// An area with its lower corner at `pos`, of the given size and shape, holding no
    /// chunks and waiting to be checked.
    pub fn new(pos: ChunkPosition, size: Size3, shape: AreaShape) -> (r: Self)
        requires
            size.wf(),
        ensures
            r.wf(),
            r.position_spec() == pos,
            r.size_spec() == size,
            r.shape_spec() == shape,
            r.state_spec() == LoadAreaState::Dirty,
            forall|i: int| 0 <= i < size.product_spec() ==> r.slot_state(i) == ChunkState::Unloaded,
            forall|c: ChunkPosition| #[trigger] r.state_of(c) == ChunkState::Unloaded,
    {
        let n = size.product();
        let mut chunk_states: Vec<ChunkState> = Vec::new();
        while chunk_states.len() < n
            invariant
                chunk_states@.len() <= n,
                forall|i: int| 0 <= i < chunk_states@.len() ==> #[trigger] chunk_states@[i] == ChunkState::Unloaded,
            decreases n - chunk_states@.len(),
        {
            chunk_states.push(ChunkState::Unloaded);
        }
        let r = Self { chunk_states, position: pos, size, shape, state: LoadAreaState::Dirty };
        proof {
            assert forall|c: ChunkPosition| #[trigger] r.state_of(c) == ChunkState::Unloaded by {
                if r.within_bounds_spec(c) {
                    r.lemma_slot_in_range(c);
                }
            }
        }
        r
    }

    /// The slot of a chunk in the area's box is a valid index.
    pub proof fn lemma_slot_in_range(&self, c: ChunkPosition)
        requires
            self.wf(),
            self.within_bounds_spec(c),
        ensures
            0 <= self.slot(c) < self.size_spec().product_spec(),
    {
        let s = self.size_spec();
        crate::util::size::lemma_flatten_bound(
            s.x as int,
            s.y as int,
            s.z as int,
            (c.0.x as int) % (s.x as int),
            (c.0.y as int) % (s.y as int),
            (c.0.z as int) % (s.z as int),
        );
    }

    /// If the chunk position is within the area's bounds, returns the index in `self.chunk_states` for
    /// that chunk
    fn get_array_index(&self, chunk_pos: &ChunkPosition) -> (r: Option<usize>)
        requires
            self.wf(),
        ensures
            r == if self.within_bounds_spec(*chunk_pos) {
                Some(self.slot(*chunk_pos) as usize)
            } else {
                None
            },
            r matches Some(i) ==> i < self.size_spec().product_spec(),
    {
        if self.is_within_bounds(chunk_pos) {
            let gx = rem_euclid_i32(chunk_pos.0.x, self.size.x);
            let gy = rem_euclid_i32(chunk_pos.0.y, self.size.y);
            let gz = rem_euclid_i32(chunk_pos.0.z, self.size.z);
            let grid_pos = UVec3 { x: gx as u32, y: gy as u32, z: gz as u32 };
            Some(self.size.flatten(grid_pos))
        } else {
            None
        }
    }

    /// If the given chunk position is within the bounds of this area and the chunk is loaded,
    /// returns index of the given chunk in the chunk arena.
    /// Otherwise returns None
    pub fn get_chunk_index(&self, chunk_pos: &ChunkPosition) -> (r: Option<ChunkIndex>)
        requires
            self.wf(),
        ensures
            r == match self.state_of(*chunk_pos) {
                ChunkState::Loaded(_, i) => Some(i),
                _ => None,
            },
    {
        proof {
            if self.within_bounds_spec(*chunk_pos) {
                self.lemma_slot_in_range(*chunk_pos);
            }
        }
        match self.get_array_index(chunk_pos) {
            Some(array_index) => match self.chunk_states[array_index] {
                ChunkState::Unloaded | ChunkState::Loading(_) => None,
                ChunkState::Loaded(pos, index) => {
                    if pos == *chunk_pos {
                        Some(index)
                    } else {
                        None
                    }
                },
            },
            None => None,
        }
    }

    /// True if the given chunk in the area is loaded
    pub fn is_loaded(&self, chunk_pos: &ChunkPosition) -> (r: bool)
        requires
            self.wf(),
        ensures
            r == (self.state_of(*chunk_pos) is Loaded),
    {
        proof {
            if self.within_bounds_spec(*chunk_pos) {
                self.lemma_slot_in_range(*chunk_pos);
            }
        }
        match self.get_array_index(chunk_pos) {
            Some(array_index) => match self.chunk_states[array_index] {
                ChunkState::Unloaded | ChunkState::Loading(_) => false,
                ChunkState::Loaded(pos, _) => pos == *chunk_pos,
            },
            None => false,
        }
    }

    /// True if the given chunk in the area is currently loading
    pub fn is_loading(&self, chunk_pos: &ChunkPosition) -> (r: bool)
        requires
            self.wf(),
        ensures
            r == (self.state_of(*chunk_pos) is Loading),
    {
        proof {
            if self.within_bounds_spec(*chunk_pos) {
                self.lemma_slot_in_range(*chunk_pos);
            }
        }
        match self.get_array_index(chunk_pos) {
            Some(array_index) => match self.chunk_states[array_index] {
                ChunkState::Unloaded | ChunkState::Loaded(_, _) => false,
                ChunkState::Loading(pos) => pos == *chunk_pos,
            },
            None => false,
        }
    }

    /// True if the chunk at the given position is neither loaded or loading, or isn't contained in
    /// the area's bounds
    pub fn is_unloaded(&self, chunk_pos: &ChunkPosition) -> (r: bool)
        requires
            self.wf(),
        ensures
            r == (self.state_of(*chunk_pos) is Unloaded),
    {
        proof {
            if self.within_bounds_spec(*chunk_pos) {
                self.lemma_slot_in_range(*chunk_pos);
            }
        }
        match self.get_array_index(chunk_pos) {
            Some(array_index) => match self.chunk_states[array_index] {
                ChunkState::Unloaded => true,
                ChunkState::Loading(pos) => !(pos == *chunk_pos),
                ChunkState::Loaded(pos, _) => !(pos == *chunk_pos),
            },
            None => true,
        }
    }

    /// True if the chunk position is contained by the bounding box of the area (faster test)
    pub fn is_within_bounds(&self, chunk_pos: &ChunkPosition) -> (r: bool)
        requires
            self.wf(),
        ensures
            r == self.within_bounds_spec(*chunk_pos),
    {
        let dx = chunk_pos.0.x as i64 - self.position.0.x as i64;
        let dy = chunk_pos.0.y as i64 - self.position.0.y as i64;
        let dz = chunk_pos.0.z as i64 - self.position.0.z as i64;
        0 <= dx && dx < self.size.x as i64 && 0 <= dy && dy < self.size.y as i64 && 0 <= dz && dz
            < self.size.z as i64
    }

    /// The box's upper corner, one past its last chunk on each axis, fits in `i32`.
    pub open spec fn upper_fits(&self) -> bool {
        let p = self.position_spec();
        let s = self.size_spec();
        &&& p.0.x + s.x <= i32::MAX
        &&& p.0.y + s.y <= i32::MAX
        &&& p.0.z + s.z <= i32::MAX
    }

    /// All chunk positions of the area's box, by x, then y, then z (the shape is not
    /// tested here)
    pub fn box_positions(&self) -> (r: Vec<ChunkPosition>)
        requires
            self.wf(),
            self.upper_fits(),
        ensures
            forall|c: ChunkPosition| #[trigger] r@.contains(c) <==> self.within_bounds_spec(c),
            forall|i: int, j: int| 0 <= i < j < r@.len() ==> walked_before(#[trigger] r@[i], #[trigger] r@[j]),
    {
        let lower = self.position.0;
        let ux: i32 = lower.x + self.size.x as i32;
        let uy: i32 = lower.y + self.size.y as i32;
        let uz: i32 = lower.z + self.size.z as i32;
        let mut positions: Vec<ChunkPosition> = Vec::new();
        let mut x: i32 = lower.x;
        while x < ux
            invariant
                lower == self.position_spec().0,
                ux == lower.x + self.size_spec().x,
                uy == lower.y + self.size_spec().y,
                uz == lower.z + self.size_spec().z,
                lower.x <= x <= ux || (x == lower.x && ux < lower.x),
                forall|c: ChunkPosition| #[trigger] positions@.contains(c) <==> self.within_bounds_spec(c) && c.0.x < x,
                forall|i: int, j: int| 0 <= i < j < positions@.len() ==> walked_before(#[trigger] positions@[i], #[trigger] positions@[j]),
                forall|i: int| 0 <= i < positions@.len() ==> (#[trigger] positions@[i]).0.x < x,
            decreases ux - x,
        {
            let mut y: i32 = lower.y;
            while y < uy
                invariant
                    lower == self.position_spec().0,
                    ux == lower.x + self.size_spec().x,
                    uy == lower.y + self.size_spec().y,
                    uz == lower.z + self.size_spec().z,
                    lower.x <= x < ux,
                    lower.y <= y <= uy || (y == lower.y && uy < lower.y),
                    forall|c: ChunkPosition| #[trigger] positions@.contains(c) <==> self.within_bounds_spec(c) && (c.0.x < x || (
                        c.0.x == x && c.0.y < y)),
                    forall|i: int, j: int| 0 <= i < j < positions@.len() ==> walked_before(#[trigger] positions@[i], #[trigger] positions@[j]),
                    forall|i: int| 0 <= i < positions@.len() ==> (#[trigger] positions@[i]).0.x < x || (positions@[i].0.x == x
                        && positions@[i].0.y < y),
                decreases uy - y,
            {
                let mut z: i32 = lower.z;
                while z < uz
                    invariant
                        lower == self.position_spec().0,
                        ux == lower.x + self.size_spec().x,
                        uy == lower.y + self.size_spec().y,
                        uz == lower.z + self.size_spec().z,
                        lower.x <= x < ux,
                        lower.y <= y < uy,
                        lower.z <= z <= uz || (z == lower.z && uz < lower.z),
                        forall|c: ChunkPosition| #[trigger] positions@.contains(c) <==> self.within_bounds_spec(c) && (c.0.x < x
                            || (c.0.x == x && c.0.y < y) || (c.0.x == x && c.0.y == y && c.0.z < z)),
                        forall|i: int, j: int|
                            0 <= i < j < positions@.len() ==> walked_before(#[trigger] positions@[i], #[trigger] positions@[j]),
                        forall|i: int| 0 <= i < positions@.len() ==> walked_before(#[trigger] positions@[i], ChunkPosition(IVec3 { x, y, z })),
                    decreases uz - z,
                {
                    let c = ChunkPosition::new(x, y, z);
                    let ghost before = positions@;
                    positions.push(c);
                    proof {
                        assert forall|q: ChunkPosition| #[trigger] positions@.contains(q) <==> before.contains(q) || q == c by {
                            if before.contains(q) {
                                let k = choose|k: int| 0 <= k < before.len() && before[k] == q;
                                assert(positions@[k] == q);
                            }
                            if q == c {
                                assert(positions@[before.len() as int] == q);
                            }
                            if positions@.contains(q) && q != c {
                                let k = choose|k: int| 0 <= k < positions@.len() && positions@[k] == q;
                                assert(before[k] == q);
                            }
                        }
                    }
                    z = z + 1;
                }
                y = y + 1;
            }
            x = x + 1;
        }
        positions
    }

    /// State of the area with regards to chunk loading
    pub fn state(&self) -> (r: LoadAreaState)
        ensures
            r == self.state_spec(),
    {
        self.state
    }

    /// Position of the lower corner of this area in chunks
    pub fn position(&self) -> (r: ChunkPosition)
        ensures
            r == self.position_spec(),
    {
        self.position
    }

    /// Size of this area in chunks
    pub fn size(&self) -> (r: Size3)
        ensures
            r == self.size_spec(),
    {
        self.size
    }

    /// Shape of this area
    pub fn shape(&self) -> (r: AreaShape)
        ensures
            r == self.shape_spec(),
    {
        self.shape
    }

    /// Update the state of this area
    pub fn set_state(&mut self, state: LoadAreaState)
        ensures
            final(self).state_spec() == state,
            final(self).position_spec() == old(self).position_spec(),
            final(self).size_spec() == old(self).size_spec(),
            final(self).shape_spec() == old(self).shape_spec(),
            forall|i: int| #[trigger] final(self).slot_state(i) == old(self).slot_state(i),
            old(self).wf() ==> final(self).wf(),
    {
        self.state = state;
    }

    /// Update the position of the lower corner of this area in chunks
    /// This will only mark the area as dirty if the new position is different
    pub fn set_pos(&mut self, new_pos: ChunkPosition)
        ensures
            final(self).position_spec() == new_pos,
            final(self).state_spec() == if new_pos == old(self).position_spec() {
                old(self).state_spec()
            } else {
                LoadAreaState::Dirty
            },
            final(self).size_spec() == old(self).size_spec(),
            final(self).shape_spec() == old(self).shape_spec(),
            forall|i: int| #[trigger] final(self).slot_state(i) == old(self).slot_state(i),
            old(self).wf() ==> final(self).wf(),
    {
        if new_pos != self.position {
            self.position = new_pos;
            self.state = LoadAreaState::Dirty;
        }
    }

    /// Update the size of this area in chunks
    /// This will only mark the area as dirty if the new size is different; the grid of
    /// chunk states keeps its slots, and slots beyond the old grid hold no chunk
    pub fn set_size(&mut self, new_size: Size3)
        requires
            old(self).wf(),
            new_size.wf(),
        ensures
            final(self).wf(),
            final(self).size_spec() == new_size,
            final(self).position_spec() == old(self).position_spec(),
            final(self).shape_spec() == old(self).shape_spec(),
            new_size == old(self).size_spec() ==> *final(self) == *old(self),
            new_size != old(self).size_spec() ==> final(self).state_spec() == LoadAreaState::Dirty,
            forall|i: int|
                0 <= i < new_size.product_spec() ==> #[trigger] final(self).slot_state(i) == if i < old(self).size_spec().product_spec() {
                    old(self).slot_state(i)
                } else {
                    ChunkState::Unloaded
                },
    {
        if new_size != self.size {
            let n = new_size.product();
            let mut states: Vec<ChunkState> = Vec::new();
            while states.len() < n
                invariant
                    states@.len() <= n,
                    n == new_size.product_spec(),
                    forall|i: int|
                        0 <= i < states@.len() ==> #[trigger] states@[i] == if i < self.chunk_states@.len() {
                            self.chunk_states@[i]
                        } else {
                            ChunkState::Unloaded
                        },
                decreases n - states@.len(),
            {
                let i = states.len();
                if i < self.chunk_states.len() {
                    states.push(self.chunk_states[i]);
                } else {
                    states.push(ChunkState::Unloaded);
                }
            }
            self.chunk_states = states;
            self.size = new_size;
            self.state = LoadAreaState::Dirty;
        }
    }

    /// Called when a chunk within the area is loaded
    pub fn mark_loaded(&mut self, chunk_pos: &ChunkPosition, chunk_index: ChunkIndex)
        requires
            old(self).wf(),
            old(self).within_bounds_spec(*chunk_pos),
        ensures
            final(self).wf(),
            final(self).position_spec() == old(self).position_spec(),
            final(self).size_spec() == old(self).size_spec(),
            final(self).shape_spec() == old(self).shape_spec(),
            final(self).state_spec() == old(self).state_spec(),
            final(self).slot_state(old(self).slot(*chunk_pos)) == ChunkState::Loaded(*chunk_pos, chunk_index),
            forall|i: int|
                0 <= i < old(self).size_spec().product_spec() && i != old(self).slot(*chunk_pos) ==> #[trigger] final(self).slot_state(i) == old(self).slot_state(i),
    {
        proof {
            self.lemma_slot_in_range(*chunk_pos);
        }
        let array_index = self.get_array_index(chunk_pos).unwrap();
        self.chunk_states.set(array_index, ChunkState::Loaded(*chunk_pos, chunk_index));
    }

    /// Called when a chunk within the area is queued for loading
    pub fn mark_loading(&mut self, chunk_pos: &ChunkPosition)
        requires
            old(self).wf(),
            old(self).within_bounds_spec(*chunk_pos),
        ensures
            final(self).wf(),
            final(self).position_spec() == old(self).position_spec(),
            final(self).size_spec() == old(self).size_spec(),
            final(self).shape_spec() == old(self).shape_spec(),
            final(self).state_spec() == old(self).state_spec(),
            final(self).slot_state(old(self).slot(*chunk_pos)) == ChunkState::Loading(*chunk_pos),
            forall|i: int|
                0 <= i < old(self).size_spec().product_spec() && i != old(self).slot(*chunk_pos) ==> #[trigger] final(self).slot_state(i) == old(self).slot_state(i),
    {
        proof {
            self.lemma_slot_in_range(*chunk_pos);
        }
        let array_index = self.get_array_index(chunk_pos).unwrap();
        self.chunk_states.set(array_index, ChunkState::Loading(*chunk_pos));
    }

    /// Called when a chunk within the area is unloaded
    pub fn mark_unloaded(&mut self, chunk_pos: &ChunkPosition)
        requires
            old(self).wf(),
            old(self).within_bounds_spec(*chunk_pos),
        ensures
            final(self).wf(),
            final(self).position_spec() == old(self).position_spec(),
            final(self).size_spec() == old(self).size_spec(),
            final(self).shape_spec() == old(self).shape_spec(),
            final(self).state_spec() == old(self).state_spec(),
            final(self).slot_state(old(self).slot(*chunk_pos)) == ChunkState::Unloaded,
            forall|i: int|
                0 <= i < old(self).size_spec().product_spec() && i != old(self).slot(*chunk_pos) ==> #[trigger] final(self).slot_state(i) == old(self).slot_state(i),
    {
        proof {
            self.lemma_slot_in_range(*chunk_pos);
        }
        let array_index = self.get_array_index(chunk_pos).unwrap();
        self.chunk_states.set(array_index, ChunkState::Unloaded);
    }
}

/// Within an area's box no two chunks share a slot: the lookup never confuses two
/// chunks the area contains.
pub proof fn lemma_slots_distinct(area: LoadArea, a: ChunkPosition, b: ChunkPosition)
    requires
        area.wf(),
        area.within_bounds_spec(a),
        area.within_bounds_spec(b),
        area.slot(a) == area.slot(b),
    ensures
        a == b,
{
    let s = area.size_spec();
    let p = area.position_spec();
    crate::util::size::lemma_flatten_injective(
        s,
        (a.0.x as int) % (s.x as int),
        (a.0.y as int) % (s.y as int),
        (a.0.z as int) % (s.z as int),
        (b.0.x as int) % (s.x as int),
        (b.0.y as int) % (s.y as int),
        (b.0.z as int) % (s.z as int),
    );
    lemma_same_residue_in_window(a.0.x as int, b.0.x as int, p.0.x as int, s.x as int);
    lemma_same_residue_in_window(a.0.y as int, b.0.y as int, p.0.y as int, s.y as int);
    lemma_same_residue_in_window(a.0.z as int, b.0.z as int, p.0.z as int, s.z as int);
}

/// Two integers in a window of width `m` with the same residue modulo `m` are equal.
proof fn lemma_same_residue_in_window(a: int, b: int, lo: int, m: int)
    requires
        lo <= a < lo + m,
        lo <= b < lo + m,
        a % m == b % m,
    ensures
        a == b,
{
    vstd::arithmetic::div_mod::lemma_fundamental_div_mod(a, m);
    vstd::arithmetic::div_mod::lemma_fundamental_div_mod(b, m);
    let qa = a / m;
    let qb = b / m;
    if qa < qb {
        assert(m * qa + m <= m * qb) by (nonlinear_arith)
            requires
                qa < qb,
                m > 0,
        ;
    } else if qb < qa {
        assert(m * qb + m <= m * qa) by (nonlinear_arith)
            requires
                qb < qa,
                m > 0,
        ;
    }
}

/// A chunk's stored state is exactly one of unloaded, loading and loaded.
pub proof fn lemma_states_exclusive(area: LoadArea, c: ChunkPosition)
    ensures
        (area.state_of(c) is Unloaded) == (!(area.state_of(c) is Loading) && !(area.state_of(c) is Loaded)),
{
}

/// After a chunk is marked loaded, lookups of that chunk find it, and every other
/// chunk of the area keeps its state.
pub proof fn lemma_mark_loaded_lookup(before: LoadArea, after: LoadArea, c: ChunkPosition, index: ChunkIndex, other: ChunkPosition)
    requires
        before.wf(),
        before.within_bounds_spec(c),
        after.position_spec() == before.position_spec(),
        after.size_spec() == before.size_spec(),
        after.slot_state(before.slot(c)) == ChunkState::Loaded(c, index),
        forall|i: int|
            0 <= i < before.size_spec().product_spec() && i != before.slot(c) ==> #[trigger] after.slot_state(i) == before.slot_state(i),
        other != c,
    ensures
        after.state_of(c) == ChunkState::Loaded(c, index),
        before.within_bounds_spec(other) ==> after.state_of(other) == before.state_of(other),
{
    before.lemma_slot_in_range(c);
    if before.within_bounds_spec(other) {
        before.lemma_slot_in_range(other);
        if before.slot(other) == before.slot(c) {
            lemma_slots_distinct(before, other, c);
        }
    }
}

} // verus!
