//! Emitted (block) light: three 4-bit colour channels packed in a `u16`, with
//! branch-free channel-wise comparison, maximum and saturating decrement.

use crate::terrain::block::{block_is_opaque_spec, get_block};
use crate::terrain::block::BlockId;
use crate::terrain::chunk::side::{side_position, side_position_spec, ChunkSideLight};
use crate::terrain::chunk::storage::ChunkBlockStorage;
use crate::terrain::chunk::{CHUNK_SIZE, CHUNK_SIZE_CUBED, CHUNK_SIZE_LOG2, CHUNK_SIZE_SQUARED};
use crate::terrain::position_types::LocalBlockPosition;
use crate::terrain::lighting::{
    lemma_neighbour_valid, neighbour_spec, wrapped_neighbour_spec, LightPropagationStep,
    LightStore, LightUpdate, ShadowPropagationStep,
};
use crate::util::fx_set::{fx_set_contents, FxSet};
use crate::util::vector::{IVec3, UVec3};
use crate::util::face::{face_normal, FaceIndex};
use std::collections::VecDeque;
use vstd::prelude::*;

verus! {

/// Channel `i` (0 to 3) of a packed light value: bits `4 * i .. 4 * i + 4`.
pub open spec fn nibble(v: u16, i: int) -> u16 {
    if i == 0 {
        v & 15
    } else if i == 1 {
        (v >> 4u16) & 15
    } else if i == 2 {
        (v >> 8u16) & 15
    } else {
        (v >> 12u16) & 15
    }
}

/// Packs four 4-bit channels into a `u16`.
pub open spec fn pack4(n0: u16, n1: u16, n2: u16, n3: u16) -> u16 {
    (n0 & 15) | ((n1 & 15) << 4u16) | ((n2 & 15) << 8u16) | ((n3 & 15) << 12u16)
}

/// Mask with all four bits of channel `i` set when channel `i` of `a` is smaller
/// than channel `i` of `b`.
pub open spec fn less_mask_spec(a: u16, b: u16) -> u16 {
    pack4(
        if a & 15 < b & 15 { 15u16 } else { 0u16 },
        if (a >> 4u16) & 15 < (b >> 4u16) & 15 { 15u16 } else { 0u16 },
        if (a >> 8u16) & 15 < (b >> 8u16) & 15 { 15u16 } else { 0u16 },
        if (a >> 12u16) & 15 < (b >> 12u16) & 15 { 15u16 } else { 0u16 },
    )
}

/// Larger of two channel values.
pub open spec fn max4(a: u16, b: u16) -> u16 {
    if a < b { b } else { a }
}

/// Channel-wise maximum of two packed values.
pub open spec fn max_spec(a: u16, b: u16) -> u16 {
    pack4(
        max4(a & 15, b & 15),
        max4((a >> 4u16) & 15, (b >> 4u16) & 15),
        max4((a >> 8u16) & 15, (b >> 8u16) & 15),
        max4((a >> 12u16) & 15, (b >> 12u16) & 15),
    )
}

/// A channel value decreased by one, stopping at zero.
pub open spec fn sat_dec4(a: u16) -> u16 {
    if a == 0 { 0 } else { (a - 1) as u16 }
}

/// Channel-wise saturating decrement of a packed value.
pub open spec fn decrement_spec(a: u16) -> u16 {
    pack4(
        sat_dec4(a & 15),
        sat_dec4((a >> 4u16) & 15),
        sat_dec4((a >> 8u16) & 15),
        sat_dec4((a >> 12u16) & 15),
    )
}

/// Emitted light values for one block packed in 16 bits
/// Bits 0 to 4   | Red component
/// Bits 4 to 8   | Green component
/// Bits 8 to 12  | Blue component
/// Bits 12 to 16 | Unused (can store skylight!)
#[derive(Clone, Copy, Debug, PartialEq, Eq, Structural)]
pub struct EmittedLight(pub u16);

impl View for EmittedLight {
    type V = u16;

    open spec fn view(&self) -> u16 {
        self.0
    }
}

/// The largest value of one light channel.
pub const EMITTED_LIGHT_MAX_VALUE: u32 = 15;

const COMPONENT_MASK: u16 = 0x0f0f;

const BORROW_GUARD: u16 = 0x2020;

const CARRY_MASK: u16 = 0x1010;

impl EmittedLight {
    /// No light in any channel (`EmittedLight::ZERO`).
    pub fn zero() -> (r: EmittedLight)
        ensures
            r@ == 0,
    {
        EmittedLight(0)
    }

    /// The largest value of one light channel.
    pub const MAX_VALUE: u32 = 15;

    /// Wrap a u16 storing the 3 light values in an `EmittedLight`
    pub fn from_u16(value: u16) -> (r: Self)
        ensures
            r@ == value,
    {
        EmittedLight(value)
    }

    /// Created a packed `EmittedLight` value from the 3 light values
    /// Values must be in 0..16
    pub fn from_rgb(r: u16, g: u16, b: u16) -> (res: Self)
        requires
            r < 16,
            g < 16,
            b < 16,
        ensures
            res@ == pack4(r, g, b, 0),
            nibble(res@, 0) == r,
            nibble(res@, 1) == g,
            nibble(res@, 2) == b,
            nibble(res@, 3) == 0,
    {
        proof {
            assert(r | g << 4u16 | b << 8u16 == pack4(r, g, b, 0)) by (bit_vector)
                requires
                    r < 16,
                    g < 16,
                    b < 16,
            ;
            lemma_pack4_nibbles(r, g, b, 0);
        }
        EmittedLight(r | g << 4 | b << 8)
    }

    /// Returns the underlying u16 storing the 3 light values
    pub fn as_u16(&self) -> (r: u16)
        ensures
            r == self@,
    {
        self.0
    }

    /// Returns the individual RGB light values represented by this packed `EmittedLight` value
    /// Values are in 0..16
    pub fn as_rgb(&self) -> (rgb: (u16, u16, u16))
        ensures
            rgb.0 == nibble(self@, 0),
            rgb.1 == nibble(self@, 1),
            rgb.2 == nibble(self@, 2),
            rgb.0 < 16 && rgb.1 < 16 && rgb.2 < 16,
    {
        let v = self.0;
        proof {
            assert(v >> 0u16 == v && v & 15 < 16 && (v >> 4u16) & 15 < 16 && (v >> 8u16) & 15 < 16)
                by (bit_vector);
        }
        ((v >> 0) & 15, (v >> 4) & 15, (v >> 8) & 15)
    }

    /// Pair-wise < operation
    /// Compare two sets of light values and determine which components are < the other
    pub fn less(a: Self, b: Self) -> (r: u16)
        ensures
            r == less_mask_spec(a@, b@),
    {
        let x = a.0;
        let y = b.0;
        let lo = Self::half_less(x, y);
        let hi = Self::half_less(x >> 4, y >> 4);
        proof {
            assert(half_less_spec(x, y) | (half_less_spec(x >> 4u16, y >> 4u16) << 4u16)
                == less_mask_spec(x, y)) by (bit_vector);
        }
        lo | (hi << 4)
    }

    /// Pair-wise `max` operation
    pub fn max(a: Self, b: Self) -> (r: Self)
        ensures
            r@ == max_spec(a@, b@),
    {
        let x = a.0;
        let y = b.0;
        let m = Self::less(a, b);
        proof {
            assert(m == less_mask_spec(x, y));
            assert(x ^ ((x ^ y) & less_mask_spec(x, y)) == max_spec(x, y)) by (bit_vector);
        }
        let result = x ^ ((x ^ y) & m);
        EmittedLight(result)
    }

    /// Subtract one from each component, saturating on underflow
    pub fn decrement_and_saturate(&self) -> (r: EmittedLight)
        ensures
            r@ == decrement_spec(self@),
    {
        let x = self.0;
        let lo = Self::decrement_and_saturate_half(x);
        let hi = Self::decrement_and_saturate_half(x >> 4);
        proof {
            assert(dec_half_spec(x) | (dec_half_spec(x >> 4u16) << 4u16) == decrement_spec(x))
                by (bit_vector);
        }
        EmittedLight(lo | (hi << 4))
    }

    fn half_less(a: u16, b: u16) -> (r: u16)
        ensures
            r == half_less_spec(a, b),
    {
        // https://0fps.net/2018/02/21/voxel-lighting/ (I did not invent this)
        proof {
            assert((a & COMPONENT_MASK) | BORROW_GUARD >= b & COMPONENT_MASK) by (bit_vector);
        }
        let d = (((a & COMPONENT_MASK) | BORROW_GUARD) - (b & COMPONENT_MASK)) & CARRY_MASK;
        (d >> 1) | (d >> 2) | (d >> 3) | (d >> 4)
    }

    fn decrement_and_saturate_half(x: u16) -> (r: u16)
        ensures
            r == dec_half_spec(x),
    {
        // https://0fps.net/2018/02/21/voxel-lighting/ (I did not invent this)
        proof {
            assert(((x & COMPONENT_MASK) | BORROW_GUARD) >= 0x0101) by (bit_vector);
        }
        // compute component-wise decrement
        let d = ((x & COMPONENT_MASK) | BORROW_GUARD) - 0x0101;

        // check for underflow
        let b = d & CARRY_MASK;

        proof {
            assert((d <= 0x2f2f ==> d + ((d & 0x1010) >> 4u16) <= 0xffff) && ((x & 0x0f0f) | 0x2020)
                - 0x0101 <= 0x2f2f) by (bit_vector);
        }
        // saturate underflowed values
        (d + (b >> 4)) & COMPONENT_MASK
    }
}

/// Borrow-guarded comparison of channels 0 and 2.
pub open spec fn half_less_spec(a: u16, b: u16) -> u16 {
    let d = (((a & 0x0f0f) | 0x2020) - (b & 0x0f0f)) as u16 & 0x1010;
    (d >> 1u16) | (d >> 2u16) | (d >> 3u16) | (d >> 4u16)
}

/// Borrow-guarded saturating decrement of channels 0 and 2.
pub open spec fn dec_half_spec(x: u16) -> u16 {
    let d = (((x & 0x0f0f) | 0x2020) - 0x0101) as u16;
    ((d + ((d & 0x1010) >> 4u16)) as u16) & 0x0f0f
}

/// Light values combine channel by channel: the maximum of two values takes the
/// larger of each pair of channels, whatever the order of the arguments; the
/// comparison mask is all ones in exactly the channels where the first value is
/// smaller; and the decrement lowers each channel by one, stopping at zero.
pub proof fn lemma_channelwise(a: u16, b: u16)
    ensures
        forall|i: int|
            0 <= i < 4 ==> nibble(#[trigger] max_spec(a, b), i) == max4(nibble(a, i), nibble(b, i)),
        forall|i: int|
            0 <= i < 4 ==> nibble(#[trigger] less_mask_spec(a, b), i) == if nibble(a, i) < nibble(b, i) {
                15u16
            } else {
                0u16
            },
        forall|i: int| 0 <= i < 4 ==> nibble(#[trigger] decrement_spec(a), i) == sat_dec4(nibble(a, i)),
        max_spec(a, b) == max_spec(b, a),
{
    assert(a & 15 < 16 && (a >> 4u16) & 15 < 16 && (a >> 8u16) & 15 < 16 && (a >> 12u16) & 15 < 16 && b & 15 < 16
        && (b >> 4u16) & 15 < 16 && (b >> 8u16) & 15 < 16 && (b >> 12u16) & 15 < 16) by (bit_vector);
    lemma_pack4_nibbles(
        max4(a & 15, b & 15),
        max4((a >> 4u16) & 15, (b >> 4u16) & 15),
        max4((a >> 8u16) & 15, (b >> 8u16) & 15),
        max4((a >> 12u16) & 15, (b >> 12u16) & 15),
    );
    lemma_pack4_nibbles(
        if a & 15 < b & 15 { 15u16 } else { 0u16 },
        if (a >> 4u16) & 15 < (b >> 4u16) & 15 { 15u16 } else { 0u16 },
        if (a >> 8u16) & 15 < (b >> 8u16) & 15 { 15u16 } else { 0u16 },
        if (a >> 12u16) & 15 < (b >> 12u16) & 15 { 15u16 } else { 0u16 },
    );
    lemma_pack4_nibbles(
        sat_dec4(a & 15),
        sat_dec4((a >> 4u16) & 15),
        sat_dec4((a >> 8u16) & 15),
        sat_dec4((a >> 12u16) & 15),
    );
}

/// Reading back the channels of a packed value gives the channels that were packed.
pub proof fn lemma_pack4_nibbles(n0: u16, n1: u16, n2: u16, n3: u16)
    requires
        n0 < 16,
        n1 < 16,
        n2 < 16,
        n3 < 16,
    ensures
        nibble(pack4(n0, n1, n2, n3), 0) == n0,
        nibble(pack4(n0, n1, n2, n3), 1) == n1,
        nibble(pack4(n0, n1, n2, n3), 2) == n2,
        nibble(pack4(n0, n1, n2, n3), 3) == n3,
{
    assert({
        let v = (n0 & 15) | ((n1 & 15) << 4u16) | ((n2 & 15) << 8u16) | ((n3 & 15) << 12u16);
        &&& v & 15 == n0
        &&& (v >> 4u16) & 15 == n1
        &&& (v >> 8u16) & 15 == n2
        &&& (v >> 12u16) & 15 == n3
    }) by (bit_vector)
        requires
            n0 < 16,
            n1 < 16,
            n2 < 16,
            n3 < 16,
    ;
}

} // verus!

verus! {

/// Channel `c` of a packed light value, as an integer.
pub open spec fn ch(v: u16, c: int) -> int {
    nibble(v, c) as int
}

/// Channel-level facts about the packed operations: maximum, decrement, comparison
/// mask and the range of channels.
pub proof fn lemma_channels(a: u16, b: u16)
    ensures
        forall|c: int| 0 <= c < 4 ==> 0 <= #[trigger] ch(a, c) < 16,
        forall|c: int|
            0 <= c < 4 ==> #[trigger] ch(max_spec(a, b), c) == if ch(a, c) < ch(b, c) {
                ch(b, c)
            } else {
                ch(a, c)
            },
        forall|c: int|
            0 <= c < 4 ==> #[trigger] ch(decrement_spec(a), c) == if ch(a, c) == 0 {
                0
            } else {
                ch(a, c) - 1
            },
        (less_mask_spec(a, b) == 0) <==> (forall|c: int| 0 <= c < 4 ==> ch(a, c) >= ch(b, c)),
        (a < 0x1000) <==> (ch(a, 3) == 0),
        (forall|c: int| 0 <= c < 4 ==> ch(a, c) == ch(b, c)) ==> a == b,
        max_spec(a, b) < 0x1000 <==> (a < 0x1000 && b < 0x1000),
        a < 0x1000 ==> decrement_spec(a) < 0x1000,
        forall|c: int| 0 <= c < 4 ==> #[trigger] ch(0u16, c) == 0,
{
    assert(0u16 & 15 == 0 && (0u16 >> 4u16) & 15 == 0 && (0u16 >> 8u16) & 15 == 0 && (0u16 >> 12u16)
        & 15 == 0 && a & 15 < 16 && (a >> 4u16) & 15 < 16 && (a >> 8u16) & 15 < 16 && (a >> 12u16)
        & 15 < 16 && ((a < 0x1000) <==> ((a >> 12u16) & 15 == 0))) by (bit_vector);
    assert(max_spec(a, b) & 15 == max4(a & 15, b & 15) && (max_spec(a, b) >> 4u16) & 15 == max4(
        (a >> 4u16) & 15,
        (b >> 4u16) & 15,
    ) && (max_spec(a, b) >> 8u16) & 15 == max4((a >> 8u16) & 15, (b >> 8u16) & 15) && (max_spec(
        a,
        b,
    ) >> 12u16) & 15 == max4((a >> 12u16) & 15, (b >> 12u16) & 15) && (max_spec(a, b) < 0x1000 <==> (
    a < 0x1000 && b < 0x1000))) by (bit_vector);
    assert(decrement_spec(a) & 15 == sat_dec4(a & 15) && (decrement_spec(a) >> 4u16) & 15 == sat_dec4(
        (a >> 4u16) & 15,
    ) && (decrement_spec(a) >> 8u16) & 15 == sat_dec4((a >> 8u16) & 15) && (decrement_spec(a)
        >> 12u16) & 15 == sat_dec4((a >> 12u16) & 15) && (a < 0x1000 ==> decrement_spec(a) < 0x1000))
        by (bit_vector);
    assert(((less_mask_spec(a, b) == 0) <==> (a & 15 >= b & 15 && (a >> 4u16) & 15 >= (b >> 4u16)
        & 15 && (a >> 8u16) & 15 >= (b >> 8u16) & 15 && (a >> 12u16) & 15 >= (b >> 12u16) & 15)) && (
    (a & 15 == b & 15 && (a >> 4u16) & 15 == (b >> 4u16) & 15 && (a >> 8u16) & 15 == (b >> 8u16)
        & 15 && (a >> 12u16) & 15 == (b >> 12u16) & 15) ==> a == b)) by (bit_vector);
    if forall|c: int| 0 <= c < 4 ==> ch(a, c) >= ch(b, c) {
        assert(ch(a, 0) >= ch(b, 0) && ch(a, 1) >= ch(b, 1) && ch(a, 2) >= ch(b, 2) && ch(a, 3)
            >= ch(b, 3));
    }
    if forall|c: int| 0 <= c < 4 ==> ch(a, c) == ch(b, c) {
        assert(ch(a, 0) == ch(b, 0) && ch(a, 1) == ch(b, 1) && ch(a, 2) == ch(b, 2) && ch(a, 3)
            == ch(b, 3));
    }
}

/// True if light can enter the block at `q`.
pub open spec fn transparent_at(blocks: ChunkBlockStorage, q: LocalBlockPosition) -> bool {
    !block_is_opaque_spec(blocks.block_at(q.index()).0 as int)
}

/// The emitted light values of a store, by array index.
pub open spec fn emitted_seq<Store: LightStore<EmittedLight>>(store: Store) -> Seq<u16> {
    Seq::new(32768, |i: int| store.light_at(i)@)
}

/// `e` is an emitted light update for the block next to `p` across face `f` in the
/// neighbouring chunk, bringing at least `need - 1` light in channel `c`.
pub open spec fn out_covers(
    e: (FaceIndex, LightUpdate),
    p: LocalBlockPosition,
    f: int,
    c: int,
    need: int,
) -> bool {
    &&& e.0 == FaceIndex(f as usize)
    &&& match e.1 {
        LightUpdate::EmittedLight(s) => s.position == wrapped_neighbour_spec(p, f) && !s.is_repair_step
            && ch(s.light@, c) + 1 >= need,
        _ => false,
    }
}

/// Channel `c` of the light value `pv` at `p` has reached the neighbour across face `f`:
/// the neighbour is opaque, already holds at least one less, or a queued step will bring
/// at least one less there; or, across the chunk border, the value is at most one or an
/// update for the neighbouring chunk carries at least one less.
pub open spec fn cell_ok(
    light: Seq<u16>,
    queue: Seq<LightPropagationStep<EmittedLight>>,
    out: Seq<(FaceIndex, LightUpdate)>,
    blocks: ChunkBlockStorage,
    pv: u16,
    p: LocalBlockPosition,
    f: int,
    c: int,
) -> bool {
    let need = ch(pv, c);
    match neighbour_spec(p, f) {
        Some(q) => !transparent_at(blocks, q) || ch(light[q.index()], c) + 1 >= need || exists|k: int|
            0 <= k < queue.len() && queue[k].position == q && ch(queue[k].light@, c) + 1 >= need,
        None => need <= 1 || exists|k: int| 0 <= k < out.len() && out_covers(out[k], p, f, c, need),
    }
}

/// The block next to `p` across face `f`, in the same chunk, is brighter than `v` by at
/// least one in channel `c`.
pub open spec fn lit_from(light: Seq<u16>, p: LocalBlockPosition, f: int, v: u16, c: int) -> bool {
    match neighbour_spec(p, f) {
        Some(q) => ch(light[q.index()], c) >= ch(v, c) + 1,
        None => false,
    }
}

/// Channel `c` of light `v` at `p` is accounted for: it is no more than the light there
/// before propagation, or than a step queued for `p` at the start, or the block at `p`
/// lets light in and a neighbour is brighter by at least one.
pub open spec fn supported(
    light: Seq<u16>,
    old_light: Seq<u16>,
    q0: Seq<LightPropagationStep<EmittedLight>>,
    blocks: ChunkBlockStorage,
    p: LocalBlockPosition,
    v: u16,
    c: int,
) -> bool {
    ||| ch(v, c) <= ch(old_light[p.index()], c)
    ||| exists|k: int| 0 <= k < q0.len() && (#[trigger] q0[k]).position == p && ch(q0[k].light@, c) >= ch(v, c)
    ||| transparent_at(blocks, p) && exists|f: int| 0 <= f < 6 && #[trigger] lit_from(light, p, f, v, c)
}

/// Every light value, and every queued step, is accounted for.
#[verifier::opaque]
pub open spec fn support_inv(
    light: Seq<u16>,
    old_light: Seq<u16>,
    q0: Seq<LightPropagationStep<EmittedLight>>,
    blocks: ChunkBlockStorage,
    queue: Seq<LightPropagationStep<EmittedLight>>,
) -> bool {
    &&& forall|p: LocalBlockPosition, c: int|
        p.is_valid() && 0 <= c < 4 ==> #[trigger] supported(light, old_light, q0, blocks, p, light[p.index()], c)
    &&& forall|k: int, c: int|
        0 <= k < queue.len() && 0 <= c < 4 ==> #[trigger] supported(
            light,
            old_light,
            q0,
            blocks,
            queue[k].position,
            queue[k].light@,
            c,
        )
}

/// Support depends on a value only through the channel asked about, and survives
/// light growing in that channel.
proof fn lemma_supported_transfer(
    l1: Seq<u16>,
    l2: Seq<u16>,
    old_light: Seq<u16>,
    q0: Seq<LightPropagationStep<EmittedLight>>,
    blocks: ChunkBlockStorage,
    p: LocalBlockPosition,
    v1: u16,
    v2: u16,
    c: int,
)
    requires
        supported(l1, old_light, q0, blocks, p, v1, c),
        p.is_valid(),
        l1.len() == 32768,
        l2.len() == 32768,
        forall|i: int, c2: int| 0 <= i < 32768 && 0 <= c2 < 4 ==> #[trigger] ch(l2[i], c2) >= ch(l1[i], c2),
        0 <= c < 4,
        ch(v2, c) <= ch(v1, c),
    ensures
        supported(l2, old_light, q0, blocks, p, v2, c),
{
    if ch(v1, c) <= ch(old_light[p.index()], c) {
    } else if exists|k: int| 0 <= k < q0.len() && (#[trigger] q0[k]).position == p && ch(q0[k].light@, c) >= ch(v1, c) {
        let k = choose|k: int| 0 <= k < q0.len() && (#[trigger] q0[k]).position == p && ch(q0[k].light@, c) >= ch(v1, c);
        assert(q0[k].position == p && ch(q0[k].light@, c) >= ch(v2, c));
    } else {
        let f = choose|f: int| 0 <= f < 6 && #[trigger] lit_from(l1, p, f, v1, c);
        lemma_neighbour_valid(p, f);
        let q = neighbour_spec(p, f)->0;
        assert(ch(l2[q.index()], c) >= ch(l1[q.index()], c));
        assert(lit_from(l2, p, f, v2, c));
    }
}

/// Before propagation, the light is the old light and the queue the initial one.
proof fn lemma_support_init(
    light: Seq<u16>,
    q0: Seq<LightPropagationStep<EmittedLight>>,
    blocks: ChunkBlockStorage,
)
    ensures
        support_inv(light, light, q0, blocks, q0),
{
    reveal(support_inv);
    assert forall|k: int, c: int| 0 <= k < q0.len() && 0 <= c < 4 implies #[trigger] supported(
        light,
        light,
        q0,
        blocks,
        q0[k].position,
        q0[k].light@,
        c,
    ) by {
        assert(q0[k].position == q0[k].position);
    }
}

/// Taking the first step off the queue keeps everything accounted for.
proof fn lemma_support_pop(
    light: Seq<u16>,
    old_light: Seq<u16>,
    q0: Seq<LightPropagationStep<EmittedLight>>,
    blocks: ChunkBlockStorage,
    qb: Seq<LightPropagationStep<EmittedLight>>,
)
    requires
        support_inv(light, old_light, q0, blocks, qb),
        qb.len() > 0,
    ensures
        support_inv(light, old_light, q0, blocks, qb.subrange(1, qb.len() as int)),
{
    reveal(support_inv);
    let qa = qb.subrange(1, qb.len() as int);
    assert forall|k: int, c: int| 0 <= k < qa.len() && 0 <= c < 4 implies #[trigger] supported(
        light,
        old_light,
        q0,
        blocks,
        qa[k].position,
        qa[k].light@,
        c,
    ) by {
        assert(qa[k] == qb[k + 1]);
        assert(supported(light, old_light, q0, blocks, qb[k + 1].position, qb[k + 1].light@, c));
    }
}

/// Writing the first step of the queue at its block, taking the larger value in each
/// channel, and taking it off the queue keeps everything accounted for.
proof fn lemma_support_write(
    lb: Seq<u16>,
    ln: Seq<u16>,
    old_light: Seq<u16>,
    q0: Seq<LightPropagationStep<EmittedLight>>,
    blocks: ChunkBlockStorage,
    qb: Seq<LightPropagationStep<EmittedLight>>,
)
    requires
        support_inv(lb, old_light, q0, blocks, qb),
        qb.len() > 0,
        queue_wf(qb),
        lb.len() == 32768,
        ln == lb.update(qb[0].position.index(), max_spec(lb[qb[0].position.index()], qb[0].light@)),
    ensures
        support_inv(ln, old_light, q0, blocks, qb.subrange(1, qb.len() as int)),
{
    reveal(support_inv);
    let step = qb[0];
    let idx = step.position.index();
    assert(step.position.is_valid());
    crate::terrain::position_types::lemma_array_index_roundtrip(step.position);
    lemma_channels(lb[idx], step.light@);
    assert forall|i: int, c: int| 0 <= i < 32768 && 0 <= c < 4 implies #[trigger] ch(ln[i], c) >= ch(lb[i], c) by {
        if i == idx {
            assert(ln[i] == max_spec(lb[idx], step.light@));
        }
    }
    assert forall|p: LocalBlockPosition, c: int| p.is_valid() && 0 <= c < 4 implies #[trigger] supported(
        ln,
        old_light,
        q0,
        blocks,
        p,
        ln[p.index()],
        c,
    ) by {
        crate::terrain::position_types::lemma_array_index_roundtrip(p);
        if p.index() == idx {
            crate::terrain::position_types::lemma_index_injective(p, step.position);
            assert(ln[idx] == max_spec(lb[idx], step.light@));
            if ch(lb[idx], c) < ch(step.light@, c) {
                assert(supported(lb, old_light, q0, blocks, qb[0].position, qb[0].light@, c));
                lemma_supported_transfer(lb, ln, old_light, q0, blocks, p, step.light@, ln[idx], c);
            } else {
                assert(supported(lb, old_light, q0, blocks, p, lb[p.index()], c));
                lemma_supported_transfer(lb, ln, old_light, q0, blocks, p, lb[idx], ln[idx], c);
            }
        } else {
            assert(supported(lb, old_light, q0, blocks, p, lb[p.index()], c));
            lemma_supported_transfer(lb, ln, old_light, q0, blocks, p, lb[p.index()], ln[p.index()], c);
        }
    }
    let qa = qb.subrange(1, qb.len() as int);
    assert forall|k: int, c: int| 0 <= k < qa.len() && 0 <= c < 4 implies #[trigger] supported(
        ln,
        old_light,
        q0,
        blocks,
        qa[k].position,
        qa[k].light@,
        c,
    ) by {
        assert(qa[k] == qb[k + 1]);
        assert(qb[k + 1].position.is_valid());
        assert(supported(lb, old_light, q0, blocks, qb[k + 1].position, qb[k + 1].light@, c));
        lemma_supported_transfer(lb, ln, old_light, q0, blocks, qa[k].position, qa[k].light@, qa[k].light@, c);
    }
}

/// Queueing for a transparent neighbour of `position` the light `src` there less one
/// keeps everything accounted for, when the light at `position` is at least `src`.
proof fn lemma_support_push(
    light: Seq<u16>,
    old_light: Seq<u16>,
    q0: Seq<LightPropagationStep<EmittedLight>>,
    blocks: ChunkBlockStorage,
    queue: Seq<LightPropagationStep<EmittedLight>>,
    position: LocalBlockPosition,
    f: int,
    src: u16,
    dim: u16,
)
    requires
        support_inv(light, old_light, q0, blocks, queue),
        position.is_valid(),
        0 <= f < 6,
        neighbour_spec(position, f) is Some,
        transparent_at(blocks, neighbour_spec(position, f)->0),
        light.len() == 32768,
        forall|c: int| 0 <= c < 4 ==> ch(light[position.index()], c) >= #[trigger] ch(src, c),
        forall|c: int| 0 <= c < 4 ==> #[trigger] ch(dim, c) == if ch(src, c) == 0 {
            0
        } else {
            ch(src, c) - 1
        },
    ensures
        support_inv(
            light,
            old_light,
            q0,
            blocks,
            queue.push(
                LightPropagationStep {
                    position: neighbour_spec(position, f)->0,
                    light: EmittedLight(dim),
                    is_repair_step: false,
                },
            ),
        ),
{
    reveal(support_inv);
    let q = neighbour_spec(position, f)->0;
    let queue1 = queue.push(LightPropagationStep { position: q, light: EmittedLight(dim), is_repair_step: false });
    crate::terrain::lighting::lemma_neighbour_back(position, f);
    assert forall|k: int, c: int| 0 <= k < queue1.len() && 0 <= c < 4 implies #[trigger] supported(
        light,
        old_light,
        q0,
        blocks,
        queue1[k].position,
        queue1[k].light@,
        c,
    ) by {
        if k < queue.len() {
            assert(queue1[k] == queue[k]);
        } else {
            assert(queue1[k].position == q && queue1[k].light@ == dim);
            if ch(dim, c) > 0 {
                assert(ch(src, c) >= 1);
                assert(lit_from(light, q, (f + 3) % 6, dim, c));
            } else {
                lemma_channels(old_light[q.index()], 0);
            }
        }
    }
}

/// Channel `c` of light `v` at `p` is no brighter than the light of one of the initial
/// steps `q0`, less one for each block between that step and `p`.
pub open spec fn within_queue_reach(q0: Seq<LightPropagationStep<EmittedLight>>, p: LocalBlockPosition, v: u16, c: int) -> bool {
    ||| ch(v, c) == 0
    ||| exists|k: int|
        0 <= k < q0.len() && ch((#[trigger] q0[k]).light@, c) - block_distance(q0[k].position, p) >= ch(v, c)
}

/// Update `e` goes across face `f` of the border block `p`, beyond which the chunk has no
/// block: light `s` of a step written at `p`, less one, for the block of the neighbouring
/// chunk touching `p`, when that leaves any light. The light `s` is no more than `p`
/// holds and within reach of the initial steps `q0`.
pub open spec fn emitted_sent(
    light: Seq<u16>,
    q0: Seq<LightPropagationStep<EmittedLight>>,
    e: (FaceIndex, LightUpdate),
    p: LocalBlockPosition,
    f: int,
    s: u16,
) -> bool {
    &&& p.is_valid()
    &&& 0 <= f < 6
    &&& neighbour_spec(p, f) is None
    &&& decrement_spec(s) != 0
    &&& e == (
        FaceIndex(f as usize),
        LightUpdate::EmittedLight(
            LightPropagationStep {
                position: wrapped_neighbour_spec(p, f),
                light: EmittedLight(decrement_spec(s)),
                is_repair_step: false,
            },
        ),
    )
    &&& forall|c: int| 0 <= c < 4 ==> #[trigger] sent_channel_ok(light, q0, p, s, c)
}

/// Channel `c` of light `s` sent from `p` is no more than `p` holds, and within reach of
/// the initial steps `q0`.
pub open spec fn sent_channel_ok(light: Seq<u16>, q0: Seq<LightPropagationStep<EmittedLight>>, p: LocalBlockPosition, s: u16, c: int) -> bool {
    ch(s, c) <= ch(light[p.index()], c) && within_queue_reach(q0, p, s, c)
}

/// Update `e` is one that propagation sends to a neighbouring chunk.
pub open spec fn emitted_out_ok(light: Seq<u16>, q0: Seq<LightPropagationStep<EmittedLight>>, e: (FaceIndex, LightUpdate)) -> bool {
    exists|p: LocalBlockPosition, f: int, s: u16| #[trigger] emitted_sent(light, q0, e, p, f, s)
}

/// Every light value raised above the old one, and every queued step, is within reach of
/// the initial steps.
#[verifier::opaque]
pub open spec fn reach_inv(
    light: Seq<u16>,
    old_light: Seq<u16>,
    q0: Seq<LightPropagationStep<EmittedLight>>,
    queue: Seq<LightPropagationStep<EmittedLight>>,
) -> bool {
    &&& forall|p: LocalBlockPosition, c: int|
        p.is_valid() && 0 <= c < 4 ==> ch(light[p.index()], c) <= ch(old_light[p.index()], c)
            || #[trigger] within_queue_reach(q0, p, light[p.index()], c)
    &&& forall|k: int, c: int|
        0 <= k < queue.len() && 0 <= c < 4 ==> #[trigger] within_queue_reach(q0, queue[k].position, queue[k].light@, c)
}

/// The updates of `out` from index `from` on are ones propagation sends.
#[verifier::opaque]
pub open spec fn outs_ok(
    light: Seq<u16>,
    q0: Seq<LightPropagationStep<EmittedLight>>,
    out: Seq<(FaceIndex, LightUpdate)>,
    from: int,
) -> bool {
    forall|k: int| from <= k < out.len() ==> #[trigger] emitted_out_ok(light, q0, out[k])
}

/// Reach depends on a value only through the channel asked about.
proof fn lemma_reach_transfer(q0: Seq<LightPropagationStep<EmittedLight>>, p: LocalBlockPosition, v1: u16, v2: u16, c: int)
    requires
        within_queue_reach(q0, p, v1, c),
        ch(v2, c) <= ch(v1, c),
        0 <= c < 4,
    ensures
        within_queue_reach(q0, p, v2, c),
{
    lemma_channels(v2, 0);
    if ch(v1, c) != 0 {
        let k = choose|k: int| 0 <= k < q0.len() && ch((#[trigger] q0[k]).light@, c) - block_distance(q0[k].position, p) >= ch(v1, c);
        assert(ch(q0[k].light@, c) - block_distance(q0[k].position, p) >= ch(v2, c));
    }
}

/// Before propagation every step is within reach of itself.
proof fn lemma_reach_init(light: Seq<u16>, q0: Seq<LightPropagationStep<EmittedLight>>, out: Seq<(FaceIndex, LightUpdate)>)
    ensures
        reach_inv(light, light, q0, q0),
        outs_ok(light, q0, out, out.len() as int),
{
    reveal(reach_inv);
    reveal(outs_ok);
    assert forall|k: int, c: int| 0 <= k < q0.len() && 0 <= c < 4 implies #[trigger] within_queue_reach(q0, q0[k].position, q0[k].light@, c) by {
        assert(block_distance(q0[k].position, q0[k].position) == 0);
    }
}

/// Taking the first step off the queue: it is within reach, and so is what is left.
proof fn lemma_reach_pop(
    light: Seq<u16>,
    old_light: Seq<u16>,
    q0: Seq<LightPropagationStep<EmittedLight>>,
    qb: Seq<LightPropagationStep<EmittedLight>>,
)
    requires
        reach_inv(light, old_light, q0, qb),
        qb.len() > 0,
    ensures
        reach_inv(light, old_light, q0, qb.subrange(1, qb.len() as int)),
        forall|c: int| 0 <= c < 4 ==> #[trigger] within_queue_reach(q0, qb[0].position, qb[0].light@, c),
{
    reveal(reach_inv);
    let qa = qb.subrange(1, qb.len() as int);
    assert forall|k: int, c: int| 0 <= k < qa.len() && 0 <= c < 4 implies #[trigger] within_queue_reach(q0, qa[k].position, qa[k].light@, c) by {
        assert(qa[k] == qb[k + 1]);
        assert(within_queue_reach(q0, qb[k + 1].position, qb[k + 1].light@, c));
    }
    assert forall|c: int| 0 <= c < 4 implies #[trigger] within_queue_reach(q0, qb[0].position, qb[0].light@, c) by {
        assert(within_queue_reach(q0, qb[0].position, qb[0].light@, c));
    }
}

/// Writing the first step of the queue at its block, keeping the larger value in each
/// channel, keeps every raised value within reach; the updates already sent stay ones
/// propagation sends.
proof fn lemma_reach_write(
    lb: Seq<u16>,
    ln: Seq<u16>,
    old_light: Seq<u16>,
    q0: Seq<LightPropagationStep<EmittedLight>>,
    qb: Seq<LightPropagationStep<EmittedLight>>,
    out: Seq<(FaceIndex, LightUpdate)>,
    from: int,
)
    requires
        reach_inv(lb, old_light, q0, qb),
        outs_ok(lb, q0, out, from),
        qb.len() > 0,
        queue_wf(qb),
        lb.len() == 32768,
        ln == lb.update(qb[0].position.index(), max_spec(lb[qb[0].position.index()], qb[0].light@)),
    ensures
        reach_inv(ln, old_light, q0, qb.subrange(1, qb.len() as int)),
        outs_ok(ln, q0, out, from),
{
    lemma_reach_pop(lb, old_light, q0, qb);
    reveal(reach_inv);
    reveal(outs_ok);
    let step = qb[0];
    let idx = step.position.index();
    assert(step.position.is_valid());
    crate::terrain::position_types::lemma_array_index_roundtrip(step.position);
    lemma_channels(lb[idx], step.light@);
    assert forall|i: int, c: int| 0 <= i < 32768 && 0 <= c < 4 implies #[trigger] ch(ln[i], c) >= ch(lb[i], c) by {
        if i == idx {
            assert(ln[i] == max_spec(lb[idx], step.light@));
        }
    }
    assert forall|p: LocalBlockPosition, c: int| p.is_valid() && 0 <= c < 4 implies ch(ln[p.index()], c) <= ch(old_light[p.index()], c)
        || #[trigger] within_queue_reach(q0, p, ln[p.index()], c) by {
        crate::terrain::position_types::lemma_array_index_roundtrip(p);
        if p.index() == idx {
            crate::terrain::position_types::lemma_index_injective(p, step.position);
            assert(ln[idx] == max_spec(lb[idx], step.light@));
            if ch(lb[idx], c) < ch(step.light@, c) {
                lemma_reach_transfer(q0, p, step.light@, ln[idx], c);
            } else if !(ch(ln[p.index()], c) <= ch(old_light[p.index()], c)) {
                assert(within_queue_reach(q0, p, lb[p.index()], c));
                lemma_reach_transfer(q0, p, lb[idx], ln[idx], c);
            }
        } else {
            assert(ln[p.index()] == lb[p.index()]);
        }
    }
    assert forall|k: int| from <= k < out.len() implies #[trigger] emitted_out_ok(ln, q0, out[k]) by {
        assert(emitted_out_ok(lb, q0, out[k]));
        let (p, f, sv) = choose|p: LocalBlockPosition, f: int, sv: u16| #[trigger] emitted_sent(lb, q0, out[k], p, f, sv);
        lemma_sent_grow(lb, ln, q0, out[k], p, f, sv);
    }
}

/// An update sent stays one propagation sends as light grows.
proof fn lemma_sent_grow(
    lb: Seq<u16>,
    ln: Seq<u16>,
    q0: Seq<LightPropagationStep<EmittedLight>>,
    e: (FaceIndex, LightUpdate),
    p: LocalBlockPosition,
    f: int,
    sv: u16,
)
    requires
        emitted_sent(lb, q0, e, p, f, sv),
        lb.len() == 32768,
        ln.len() == 32768,
        forall|i: int, c: int| 0 <= i < 32768 && 0 <= c < 4 ==> #[trigger] ch(ln[i], c) >= ch(lb[i], c),
    ensures
        emitted_sent(ln, q0, e, p, f, sv),
{
    crate::terrain::position_types::lemma_array_index_roundtrip(p);
    assert forall|c: int| 0 <= c < 4 implies #[trigger] sent_channel_ok(ln, q0, p, sv, c) by {
        assert(sent_channel_ok(lb, q0, p, sv, c));
        assert(ch(ln[p.index()], c) >= ch(lb[p.index()], c));
    }
}

/// Queueing for the neighbour of `position` across face `f` the light `src` there less
/// one keeps every queued step within reach.
proof fn lemma_reach_push(
    light: Seq<u16>,
    old_light: Seq<u16>,
    q0: Seq<LightPropagationStep<EmittedLight>>,
    queue: Seq<LightPropagationStep<EmittedLight>>,
    position: LocalBlockPosition,
    f: int,
    src: u16,
    dim: u16,
)
    requires
        reach_inv(light, old_light, q0, queue),
        position.is_valid(),
        0 <= f < 6,
        neighbour_spec(position, f) is Some,
        forall|c: int| 0 <= c < 4 ==> #[trigger] within_queue_reach(q0, position, src, c),
        forall|c: int| 0 <= c < 4 ==> #[trigger] ch(dim, c) == if ch(src, c) == 0 {
            0
        } else {
            ch(src, c) - 1
        },
    ensures
        reach_inv(
            light,
            old_light,
            q0,
            queue.push(
                LightPropagationStep {
                    position: neighbour_spec(position, f)->0,
                    light: EmittedLight(dim),
                    is_repair_step: false,
                },
            ),
        ),
{
    reveal(reach_inv);
    let q = neighbour_spec(position, f)->0;
    let queue1 = queue.push(LightPropagationStep { position: q, light: EmittedLight(dim), is_repair_step: false });
    assert forall|k: int, c: int| 0 <= k < queue1.len() && 0 <= c < 4 implies #[trigger] within_queue_reach(q0, queue1[k].position, queue1[k].light@, c) by {
        if k < queue.len() {
            assert(queue1[k] == queue[k]);
        } else {
            assert(queue1[k].position == q && queue1[k].light@ == dim);
            if ch(dim, c) != 0 {
                assert(within_queue_reach(q0, position, src, c));
                let j = choose|j: int| 0 <= j < q0.len() && ch((#[trigger] q0[j]).light@, c) - block_distance(q0[j].position, position) >= ch(src, c);
                assert(block_distance(q0[j].position, q) <= block_distance(q0[j].position, position) + 1);
                assert(ch(q0[j].light@, c) - block_distance(q0[j].position, q) >= ch(dim, c));
            }
        }
    }
}

/// Sending one more update that propagation sends keeps the list right.
proof fn lemma_outs_push(
    light: Seq<u16>,
    q0: Seq<LightPropagationStep<EmittedLight>>,
    out: Seq<(FaceIndex, LightUpdate)>,
    from: int,
    e: (FaceIndex, LightUpdate),
    p: LocalBlockPosition,
    f: int,
    sv: u16,
)
    requires
        outs_ok(light, q0, out, from),
        emitted_sent(light, q0, e, p, f, sv),
        0 <= from <= out.len(),
    ensures
        outs_ok(light, q0, out.push(e), from),
{
    reveal(outs_ok);
    let o1 = out.push(e);
    assert forall|k: int| from <= k < o1.len() implies #[trigger] emitted_out_ok(light, q0, o1[k]) by {
        if k < out.len() {
            assert(o1[k] == out[k]);
        } else {
            assert(o1[k] == e);
        }
    }
}

/// Channel `c` of the light at `p` after a lighting update is accounted for: it is no
/// more than the light there before, or than a step that was queued for `p`, or than
/// the emission of the block at `p`, or the block lets light in and a neighbour is
/// brighter by at least one.
pub open spec fn emitted_accounted(
    light: Seq<u16>,
    old_light: Seq<u16>,
    queue: Seq<LightPropagationStep<EmittedLight>>,
    blocks: ChunkBlockStorage,
    p: LocalBlockPosition,
    c: int,
) -> bool {
    let v = light[p.index()];
    ||| ch(v, c) <= ch(old_light[p.index()], c)
    ||| exists|k: int| 0 <= k < queue.len() && (#[trigger] queue[k]).position == p && ch(queue[k].light@, c) >= ch(v, c)
    ||| ch(emission_light_spec(blocks.block_at(p.index()).0 as int), c) >= ch(v, c)
    ||| transparent_at(blocks, p) && exists|f: int| 0 <= f < 6 && #[trigger] lit_from(light, p, f, v, c)
}

/// Light accounted for after shadows cleared some blocks (`e1`) and queued repair
/// steps (`q1`), then propagation raised it to `e2`, is accounted for against the
/// light `e0` and queue `q0` from before the shadows.
pub(crate) proof fn lemma_accounted_through_shadow(
    e0: Seq<u16>,
    e1: Seq<u16>,
    e2: Seq<u16>,
    q0: Seq<LightPropagationStep<EmittedLight>>,
    q1: Seq<LightPropagationStep<EmittedLight>>,
    blocks: ChunkBlockStorage,
    p: LocalBlockPosition,
    c: int,
)
    requires
        supported(e2, e1, q1, blocks, p, e2[p.index()], c),
        p.is_valid(),
        0 <= c < 4,
        e0.len() == 32768,
        e1.len() == 32768,
        forall|i: int| 0 <= i < 32768 ==> #[trigger] e1[i] == e0[i] || e1[i] == 0,
        q1.len() >= q0.len(),
        forall|k: int| 0 <= k < q0.len() ==> #[trigger] q1[k] == q0[k],
        forall|k: int| q0.len() <= k < q1.len() ==> repair_ok(#[trigger] q1[k], e0, blocks),
    ensures
        emitted_accounted(e2, e0, q0, blocks, p, c),
{
    let v = e2[p.index()];
    crate::terrain::position_types::lemma_array_index_roundtrip(p);
    lemma_channels(0, 0);
    lemma_channels(e0[p.index()], 0);
    if ch(v, c) <= ch(e1[p.index()], c) {
        assert(e1[p.index()] == e0[p.index()] || e1[p.index()] == 0);
    } else if exists|k: int| 0 <= k < q1.len() && (#[trigger] q1[k]).position == p && ch(q1[k].light@, c) >= ch(v, c) {
        let k = choose|k: int| 0 <= k < q1.len() && (#[trigger] q1[k]).position == p && ch(q1[k].light@, c) >= ch(v, c);
        if k < q0.len() {
            assert(q0[k] == q1[k]);
        } else {
            assert(repair_ok(q1[k], e0, blocks));
        }
    } else {
        let f = choose|f: int| 0 <= f < 6 && #[trigger] lit_from(e2, p, f, v, c);
        assert(lit_from(e2, p, f, v, c));
    }
}

/// A propagated value stays propagated when light grows, the update list grows at the
/// end, a step is appended to the queue, a step whose light has arrived leaves the
/// front of the queue, or the value shrinks.
pub proof fn lemma_cell_ok_transfer(
    l1: Seq<u16>,
    q1: Seq<LightPropagationStep<EmittedLight>>,
    o1: Seq<(FaceIndex, LightUpdate)>,
    l2: Seq<u16>,
    q2: Seq<LightPropagationStep<EmittedLight>>,
    o2: Seq<(FaceIndex, LightUpdate)>,
    blocks: ChunkBlockStorage,
    pv1: u16,
    pv2: u16,
    p: LocalBlockPosition,
    f: int,
    c: int,
)
    requires
        cell_ok(l1, q1, o1, blocks, pv1, p, f, c),
        p.is_valid(),
        0 <= f < 6,
        l1.len() == 32768,
        l2.len() == 32768,
        forall|j: int| 0 <= j < 32768 ==> ch(l2[j], c) >= ch(l1[j], c),
        o1.len() <= o2.len(),
        forall|k: int| 0 <= k < o1.len() ==> o2[k] == o1[k],
        ch(pv2, c) <= ch(pv1, c) || ch(pv2, c) <= 1,
        // the queue either gained a step at its end or lost its first step
        (q2.len() == q1.len() + 1 && forall|k: int| 0 <= k < q1.len() ==> q2[k] == q1[k]) || (
        q1.len() == q2.len() + 1 && forall|k: int| 0 <= k < q2.len() ==> q2[k] == q1[k + 1]) || q1
            == q2,
        q1.len() == q2.len() + 1 ==> q1[0].position.is_valid() && ch(
            l2[q1[0].position.index()],
            c,
        ) >= ch(q1[0].light@, c),
    ensures
        cell_ok(l2, q2, o2, blocks, pv2, p, f, c),
{
    lemma_neighbour_valid(p, f);
    match neighbour_spec(p, f) {
        Some(q) => {
            if ch(pv2, c) <= 1 {
                lemma_channels(l2[q.index()], 0);
            } else if transparent_at(blocks, q) && ch(l1[q.index()], c) + 1 < ch(pv1, c) {
                let k = choose|k: int|
                    0 <= k < q1.len() && q1[k].position == q && ch(q1[k].light@, c) + 1 >= ch(
                        pv1,
                        c,
                    );
                if q2.len() == q1.len() + 1 && forall|k: int| 0 <= k < q1.len() ==> q2[k] == q1[k] {
                    assert(q2[k] == q1[k]);
                } else if q1.len() == q2.len() + 1 && forall|k: int|
                    0 <= k < q2.len() ==> q2[k] == q1[k + 1] {
                    if k > 0 {
                        assert(q2[k - 1] == q1[k]);
                    }
                }
            }
        },
        None => {
            if ch(pv2, c) > 1 {
                let k = choose|k: int| 0 <= k < o1.len() && out_covers(o1[k], p, f, c, ch(pv1, c));
                assert(o2[k] == o1[k]);
            }
        },
    }
}

/// Weight of a light value: how much the three colour channels can still grow.
pub open spec fn weight(v: u16) -> int {
    45 - ch(v, 0) - ch(v, 1) - ch(v, 2)
}

/// Total weight of the first `n` values.
pub open spec fn phi(s: Seq<u16>, n: int) -> int
    decreases n,
{
    if n <= 0 {
        0
    } else {
        phi(s, n - 1) + weight(s[n - 1])
    }
}

/// Total weight is never negative, and replacing one value changes it by the
/// difference of the two weights.
pub proof fn lemma_phi(s: Seq<u16>, n: int, k: int, v: u16)
    requires
        0 <= n <= s.len(),
        0 <= k < s.len(),
    ensures
        phi(s, n) >= 0,
        phi(s.update(k, v), n) == if k < n {
            phi(s, n) - weight(s[k]) + weight(v)
        } else {
            phi(s, n)
        },
    decreases n,
{
    if n > 0 {
        lemma_phi(s, n - 1, k, v);
        lemma_channels(s[n - 1], 0);
        lemma_channels(v, 0);
    }
}

/// Every stored value is the channel-wise maximum of its value before propagation and
/// of the largest light written there (`pmax`).
pub open spec fn light_inv(light: Seq<u16>, old_light: Seq<u16>, pmax: Seq<u16>) -> bool {
    &&& light.len() == 32768
    &&& old_light.len() == 32768
    &&& pmax.len() == 32768
    &&& forall|j: int|
        0 <= j < 32768 ==> #[trigger] light[j] == max_spec(old_light[j], pmax[j]) && pmax[j]
            < 0x1000 && old_light[j] < 0x1000
}

/// Every value written so far is propagated across every face.
pub open spec fn all_cells_ok(
    light: Seq<u16>,
    queue: Seq<LightPropagationStep<EmittedLight>>,
    out: Seq<(FaceIndex, LightUpdate)>,
    blocks: ChunkBlockStorage,
    pmax: Seq<u16>,
) -> bool {
    forall|p: LocalBlockPosition, f: int, c: int|
        p.is_valid() && 0 <= f < 6 && 0 <= c < 3 ==> #[trigger] cell_ok(
            light,
            queue,
            out,
            blocks,
            pmax[p.index()],
            p,
            f,
            c,
        )
}

/// The first `n` initial steps have arrived, and the repair steps among them were written.
pub open spec fn absorbed(
    light: Seq<u16>,
    pmax: Seq<u16>,
    q0: Seq<LightPropagationStep<EmittedLight>>,
    n: int,
) -> bool {
    forall|k: int, c: int|
        0 <= k < n && 0 <= c < 4 ==> ch(light[q0[k].position.index()], c) >= #[trigger] ch(
            q0[k].light@,
            c,
        ) && (q0[k].is_repair_step ==> ch(pmax[q0[k].position.index()], c) >= ch(q0[k].light@, c))
}

/// Every step in the queue is at a valid position with a storable light value.
pub open spec fn queue_wf(queue: Seq<LightPropagationStep<EmittedLight>>) -> bool {
    forall|k: int|
        0 <= k < queue.len() ==> (#[trigger] queue[k]).position.is_valid() && queue[k].light@
            < 0x1000
}

/// Propagate emitted light within a chunk, returning the light updates to be
/// applied outside of the chunk
pub fn propagate_emitted_light<Store: LightStore<EmittedLight>>(
    light_store: &mut Store,
    light_propagation_queue: &mut VecDeque<LightPropagationStep<EmittedLight>>,
    light_updates_outside_chunk: &mut Vec<(FaceIndex, LightUpdate)>,
    blocks: &ChunkBlockStorage,
)
    requires
        old(light_store).store_wf(),
        forall|v: EmittedLight| Store::storable(v) <==> v@ < 0x1000,
        forall|j: int| 0 <= j < 32768 ==> (#[trigger] old(light_store).light_at(j))@ < 0x1000,
        blocks.wf(),
        blocks.all_registered(),
        queue_wf(old(light_propagation_queue)@),
    ensures
        final(light_store).store_wf(),
        final(light_store).rest() == old(light_store).rest(),
        final(light_propagation_queue)@.len() == 0,
        // light only grows
        forall|i: int, c: int|
            0 <= i < 32768 && 0 <= c < 4 ==> ch(emitted_seq(*final(light_store))[i], c) >= ch(
                emitted_seq(*old(light_store))[i],
                c,
            ),
        // every raised channel has reached all neighbours
        forall|p: LocalBlockPosition, f: int, c: int|
            p.is_valid() && 0 <= f < 6 && 0 <= c < 3 ==> ch(
                emitted_seq(*final(light_store))[p.index()],
                c,
            ) == ch(emitted_seq(*old(light_store))[p.index()], c) || cell_ok(
                emitted_seq(*final(light_store)),
                Seq::empty(),
                final(light_updates_outside_chunk)@,
                *blocks,
                emitted_seq(*final(light_store))[p.index()],
                p,
                f,
                c,
            ),
        // every queued step has arrived, and repair steps have reached all neighbours
        forall|k: int, c: int|
            0 <= k < old(light_propagation_queue)@.len() && 0 <= c < 4 ==> ch(
                emitted_seq(*final(light_store))[old(light_propagation_queue)@[k].position.index()],
                c,
            ) >= ch(old(light_propagation_queue)@[k].light@, c),
        forall|k: int, f: int, c: int|
            0 <= k < old(light_propagation_queue)@.len() && old(light_propagation_queue)@[k].is_repair_step && 0 <= f < 6 && 0 <= c < 3 ==> cell_ok(
                emitted_seq(*final(light_store)),
                Seq::empty(),
                final(light_updates_outside_chunk)@,
                *blocks,
                old(light_propagation_queue)@[k].light@,
                old(light_propagation_queue)@[k].position,
                f,
                c,
            ),
        // no light appears that is not accounted for
        forall|p: LocalBlockPosition, c: int|
            p.is_valid() && 0 <= c < 4 ==> #[trigger] supported(
                emitted_seq(*final(light_store)),
                emitted_seq(*old(light_store)),
                old(light_propagation_queue)@,
                *blocks,
                p,
                emitted_seq(*final(light_store))[p.index()],
                c,
            ),
        // no raised light exceeds the initial steps' light less the distance to them
        forall|p: LocalBlockPosition, c: int|
            p.is_valid() && 0 <= c < 4 ==> ch(emitted_seq(*final(light_store))[p.index()], c) <= ch(
                emitted_seq(*old(light_store))[p.index()],
                c,
            ) || #[trigger] within_queue_reach(
                old(light_propagation_queue)@,
                p,
                emitted_seq(*final(light_store))[p.index()],
                c,
            ),
        // each update sent to a neighbouring chunk carries light written at a border block
        forall|k: int|
            old(light_updates_outside_chunk)@.len() <= k < final(light_updates_outside_chunk)@.len() ==> #[trigger] emitted_out_ok(
                emitted_seq(*final(light_store)),
                old(light_propagation_queue)@,
                final(light_updates_outside_chunk)@[k],
            ),
        // updates for neighbouring chunks are only appended
        final(light_updates_outside_chunk)@.len() >= old(light_updates_outside_chunk)@.len(),
        forall|k: int|
            0 <= k < old(light_updates_outside_chunk)@.len() ==> final(light_updates_outside_chunk)@[k]
                == old(light_updates_outside_chunk)@[k],
        forall|k: int|
            old(light_updates_outside_chunk)@.len() <= k < final(light_updates_outside_chunk)@.len()
                ==> out_wf(final(light_updates_outside_chunk)@[k]),
{
    let ghost q0 = light_propagation_queue@;
    let ghost old_light = emitted_seq(*light_store);
    let ghost out0 = light_updates_outside_chunk@;
    let ghost mut pmax: Seq<u16> = Seq::new(32768, |i: int| 0u16);
    let ghost mut n_popped: int = 0;
    proof {
        lemma_initial(*light_store, light_propagation_queue@, light_updates_outside_chunk@, *blocks, pmax);
        lemma_phi(emitted_seq(*light_store), 32768, 0, 0);
        lemma_support_init(emitted_seq(*light_store), light_propagation_queue@, *blocks);
        lemma_reach_init(emitted_seq(*light_store), light_propagation_queue@, light_updates_outside_chunk@);
    }
    while light_propagation_queue.len() > 0
        invariant
            light_store.store_wf(),
            light_store.rest() == old(light_store).rest(),
            forall|v: EmittedLight| Store::storable(v) <==> v@ < 0x1000,
            blocks.wf(),
            blocks.all_registered(),
            0 <= n_popped <= q0.len(),
            light_propagation_queue@.len() >= q0.len() - n_popped,
            queue_wf(light_propagation_queue@),
            queue_wf(q0),
            forall|k: int|
                0 <= k < q0.len() - n_popped ==> #[trigger] light_propagation_queue@[k] == q0[k
                    + n_popped],
            forall|k: int|
                q0.len() - n_popped <= k < light_propagation_queue@.len()
                    ==> !(#[trigger] light_propagation_queue@[k]).is_repair_step,
            light_inv(emitted_seq(*light_store), old_light, pmax),
            old_light == emitted_seq(*old(light_store)),
            all_cells_ok(
                emitted_seq(*light_store),
                light_propagation_queue@,
                light_updates_outside_chunk@,
                *blocks,
                pmax,
            ),
            absorbed(emitted_seq(*light_store), pmax, q0, n_popped),
            q0 == old(light_propagation_queue)@,
            light_updates_outside_chunk@.len() >= out0.len(),
            out0 == old(light_updates_outside_chunk)@,
            forall|k: int|
                0 <= k < out0.len() ==> #[trigger] light_updates_outside_chunk@[k] == out0[k],
            forall|k: int|
                out0.len() <= k < light_updates_outside_chunk@.len() ==> out_wf(
                    #[trigger] light_updates_outside_chunk@[k],
                ),
            phi(emitted_seq(*light_store), 32768) >= 0,
            support_inv(emitted_seq(*light_store), old_light, q0, *blocks, light_propagation_queue@),
            reach_inv(emitted_seq(*light_store), old_light, q0, light_propagation_queue@),
            outs_ok(emitted_seq(*light_store), q0, light_updates_outside_chunk@, out0.len() as int),
        decreases q0.len() - n_popped, phi(emitted_seq(*light_store), 32768),
            light_propagation_queue@.len(),
    {
        let ghost queue_before = light_propagation_queue@;
        let ghost light_before = emitted_seq(*light_store);
        let ghost n_before = n_popped;
        let step = match light_propagation_queue.pop_front() {
            Some(s) => s,
            None => {
                return ;
            },
        };
        let ghost is_initial = n_popped < q0.len();
        proof {
            if is_initial {
                assert(queue_before[0] == q0[n_popped]);
                n_popped = n_popped + 1;
            } else {
                assert(!queue_before[0].is_repair_step);
            }
            assert(queue_before[0].position.is_valid() && queue_before[0].light@ < 0x1000);
            crate::terrain::position_types::lemma_array_index_roundtrip(step.position);
        }
        let ghost idx = step.position.index();

        // calculate new light value
        let light_old = light_store.read(step.position);
        let light_new = EmittedLight::max(light_old, step.light);
        proof {
            lemma_channels(light_old@, step.light@);
            lemma_channels(light_old@, light_new@);
        }

        // stop propagating if the new light value is less than or equal to existing light value
        // AND this propagation step wasn't queued by the shadow propagation to repair light areas
        // damaged by shadow
        if EmittedLight::less(light_old, light_new) == 0 && !step.is_repair_step {
            proof {
                lemma_support_pop(light_before, old_light, q0, *blocks, queue_before);
                lemma_reach_pop(light_before, old_light, q0, queue_before);
                lemma_skip(
                    light_before,
                    queue_before,
                    light_propagation_queue@,
                    light_updates_outside_chunk@,
                    *blocks,
                    pmax,
                    q0,
                    n_before,
                    n_popped,
                );
            }
            continue ;
        }
        // update light value
        light_store.write(step.position, light_new);
        let ghost pold = pmax[idx];
        let ghost pm_before = pmax;
        let ghost light_now = emitted_seq(*light_store);
        proof {
            assert(light_now =~= light_before.update(idx, light_new@));
            lemma_support_write(light_before, light_now, old_light, q0, *blocks, queue_before);
            lemma_reach_pop(light_before, old_light, q0, queue_before);
            lemma_reach_write(light_before, light_now, old_light, q0, queue_before, light_updates_outside_chunk@, out0.len() as int);
            pmax = pmax.update(idx, max_spec(pold, step.light@));
            lemma_after_write(
                light_before,
                light_now,
                queue_before,
                light_propagation_queue@,
                light_updates_outside_chunk@,
                *blocks,
                pm_before,
                pmax,
                old_light,
                q0,
                n_before,
                n_popped,
            );
            if !is_initial {
                assert(weight(light_new@) < weight(light_old@)) by {
                    lemma_channels(light_new@, 0);
                    lemma_channels(light_old@, 0);
                    let c = choose|c: int| 0 <= c < 4 && ch(light_old@, c) < ch(light_new@, c);
                    assert(c != 3);
                }
            }
        }

        // calculate new light value to propagate to neighbours
        let light_diminished = step.light.decrement_and_saturate();
        if light_diminished.0 == 0 {
            proof {
                lemma_channels(step.light@, pold);
                lemma_channels(pold, step.light@);
                lemma_channels(light_diminished@, 0);
                assert forall|p: LocalBlockPosition, f: int, c: int|
                    p.is_valid() && 0 <= f < 6 && 0 <= c < 3 implies #[trigger] cell_ok(
                    light_now,
                    light_propagation_queue@,
                    light_updates_outside_chunk@,
                    *blocks,
                    pmax[p.index()],
                    p,
                    f,
                    c,
                ) by {
                    if p.index() == idx {
                        crate::terrain::position_types::lemma_index_injective(p, step.position);
                        assert(ch(light_diminished@, c) == 0);
                        lemma_cell_ok_transfer(
                            light_now,
                            light_propagation_queue@,
                            light_updates_outside_chunk@,
                            light_now,
                            light_propagation_queue@,
                            light_updates_outside_chunk@,
                            *blocks,
                            pold,
                            pmax[idx],
                            step.position,
                            f,
                            c,
                        );
                    }
                }
            }
            continue ;
        }
        spread_to_neighbours(
            light_store,
            light_propagation_queue,
            light_updates_outside_chunk,
            blocks,
            step.position,
            step.light,
            light_diminished,
            Ghost(pmax),
            Ghost(pold),
            Ghost(old_light),
            Ghost(q0),
            Ghost(out0.len() as int),
        );
        proof {
            assert forall|k: int|
                out0.len() <= k < light_updates_outside_chunk@.len() implies out_wf(
                #[trigger] light_updates_outside_chunk@[k],
            ) by {
                if k < light_now.len() {
                }
            }
        }
    }
    proof {
        assert(light_propagation_queue@ =~= Seq::<LightPropagationStep<EmittedLight>>::empty());
        reveal(support_inv);
        reveal(reach_inv);
        reveal(outs_ok);
        lemma_final(
            emitted_seq(*light_store),
            light_updates_outside_chunk@,
            *blocks,
            pmax,
            old_light,
            q0,
        );
    }
}

/// Send the light of a step that was just written at `position` one block further
/// across each face: queue it for transparent neighbours it would brighten, and
/// record it as an update for the neighbouring chunk across the chunk border.
fn spread_to_neighbours<Store: LightStore<EmittedLight>>(
    light_store: &Store,
    queue: &mut VecDeque<LightPropagationStep<EmittedLight>>,
    out: &mut Vec<(FaceIndex, LightUpdate)>,
    blocks: &ChunkBlockStorage,
    position: LocalBlockPosition,
    light: EmittedLight,
    light_diminished: EmittedLight,
    Ghost(pmax): Ghost<Seq<u16>>,
    Ghost(pold): Ghost<u16>,
    Ghost(old_light): Ghost<Seq<u16>>,
    Ghost(q0): Ghost<Seq<LightPropagationStep<EmittedLight>>>,
    Ghost(out_start): Ghost<int>,
)
    requires
        support_inv(emitted_seq(*light_store), old_light, q0, *blocks, old(queue)@),
        reach_inv(emitted_seq(*light_store), old_light, q0, old(queue)@),
        forall|c: int| 0 <= c < 4 ==> #[trigger] within_queue_reach(q0, position, light@, c),
        outs_ok(emitted_seq(*light_store), q0, old(out)@, out_start),
        0 <= out_start <= old(out)@.len(),
        light_diminished@ != 0,
        forall|c: int| 0 <= c < 4 ==> ch(emitted_seq(*light_store)[position.index()], c) >= #[trigger] ch(light@, c),
        light_store.store_wf(),
        forall|v: EmittedLight| Store::storable(v) <==> v@ < 0x1000,
        blocks.wf(),
        blocks.all_registered(),
        position.is_valid(),
        light@ < 0x1000,
        light_diminished@ == decrement_spec(light@),
        pmax.len() == 32768,
        pmax[position.index()] == max_spec(pold, light@),
        queue_wf(old(queue)@),
        forall|p: LocalBlockPosition, f: int, c: int|
            p.is_valid() && 0 <= f < 6 && 0 <= c < 3 && p.index() != position.index()
                ==> #[trigger] cell_ok(
                emitted_seq(*light_store),
                old(queue)@,
                old(out)@,
                *blocks,
                pmax[p.index()],
                p,
                f,
                c,
            ),
        forall|f: int, c: int|
            0 <= f < 6 && 0 <= c < 3 ==> #[trigger] cell_ok(
                emitted_seq(*light_store),
                old(queue)@,
                old(out)@,
                *blocks,
                pold,
                position,
                f,
                c,
            ),
    ensures
        final(queue)@.len() >= old(queue)@.len(),
        forall|k: int| 0 <= k < old(queue)@.len() ==> #[trigger] final(queue)@[k] == old(queue)@[k],
        queue_wf(final(queue)@),
        forall|k: int|
            old(queue)@.len() <= k < final(queue)@.len() ==> !(#[trigger] final(queue)@[k]).is_repair_step,
        final(out)@.len() >= old(out)@.len(),
        forall|k: int| 0 <= k < old(out)@.len() ==> #[trigger] final(out)@[k] == old(out)@[k],
        forall|k: int|
            old(out)@.len() <= k < final(out)@.len() ==> out_wf(#[trigger] final(out)@[k]),
        all_cells_ok(emitted_seq(*light_store), final(queue)@, final(out)@, *blocks, pmax),
        support_inv(emitted_seq(*light_store), old_light, q0, *blocks, final(queue)@),
        reach_inv(emitted_seq(*light_store), old_light, q0, final(queue)@),
        outs_ok(emitted_seq(*light_store), q0, final(out)@, out_start),
{
    let ghost light_now = emitted_seq(*light_store);
    let ghost queue_now = queue@;
    let ghost out_now = out@;
    let ghost idx = position.index();
    proof {
        crate::terrain::position_types::lemma_array_index_roundtrip(position);
        lemma_channels(pold, light@);
        lemma_channels(light@, 0);
        lemma_channels(light_diminished@, 0);
    }
    // Propagate light to neighbours
    let mut face_index: usize = 0;
    while face_index < 6
        invariant
            light_store.store_wf(),
            forall|v: EmittedLight| Store::storable(v) <==> v@ < 0x1000,
            blocks.wf(),
            blocks.all_registered(),
            position.is_valid(),
            idx == position.index(),
            0 <= idx < 32768,
            light_diminished@ == decrement_spec(light@),
            light_diminished@ < 0x1000,
            pmax.len() == 32768,
            emitted_seq(*light_store) == light_now,
            light_now.len() == 32768,
            face_index <= 6,
            support_inv(light_now, old_light, q0, *blocks, queue@),
            forall|c: int| 0 <= c < 4 ==> ch(light_now[idx], c) >= #[trigger] ch(light@, c),
            reach_inv(light_now, old_light, q0, queue@),
            forall|c: int| 0 <= c < 4 ==> #[trigger] within_queue_reach(q0, position, light@, c),
            outs_ok(light_now, q0, out@, out_start),
            0 <= out_start <= out@.len(),
            light_diminished@ != 0,
            forall|c: int|
                0 <= c < 4 ==> #[trigger] ch(pmax[idx], c) == if ch(pold, c) < ch(light@, c) {
                    ch(light@, c)
                } else {
                    ch(pold, c)
                },
            forall|c: int|
                0 <= c < 4 ==> #[trigger] ch(light_diminished@, c) == if ch(light@, c) == 0 {
                    0
                } else {
                    ch(light@, c) - 1
                },
            queue@.len() >= queue_now.len(),
            forall|k: int| 0 <= k < queue_now.len() ==> #[trigger] queue@[k] == queue_now[k],
            queue_wf(queue@),
            forall|k: int|
                queue_now.len() <= k < queue@.len() ==> !(#[trigger] queue@[k]).is_repair_step,
            out@.len() >= out_now.len(),
            forall|k: int| 0 <= k < out_now.len() ==> #[trigger] out@[k] == out_now[k],
            forall|k: int| out_now.len() <= k < out@.len() ==> out_wf(#[trigger] out@[k]),
            forall|p: LocalBlockPosition, f: int, c: int|
                p.is_valid() && 0 <= f < 6 && 0 <= c < 3 && (p.index() != idx || f < face_index)
                    ==> #[trigger] cell_ok(light_now, queue@, out@, *blocks, pmax[p.index()], p, f, c),
            forall|f: int, c: int|
                face_index <= f < 6 && 0 <= c < 3 ==> #[trigger] cell_ok(
                    light_now,
                    queue@,
                    out@,
                    *blocks,
                    pold,
                    position,
                    f,
                    c,
                ),
        decreases 6 - face_index,
    {
        let ghost q_before = queue@;
        let ghost o_before = out@;
        let neighbour_offset = face_normal(face_index);
        proof {
            lemma_neighbour_valid(position, face_index as int);
        }
        match position.try_add(neighbour_offset) {
            Some(neighbour_pos) => {
                // work out if the light can pass into the neighbouring block
                let neighbour_block_id = blocks.get_block(neighbour_pos);
                let neighbour_block = get_block(neighbour_block_id);
                let existing_light_value = light_store.read(neighbour_pos);

                let can_travel_into_block = neighbour_block.model.is_transparent_in_direction(
                    FaceIndex(face_index).opposite(),
                );

                // work out if propagating light to the neighbouring block would increase the light
                // value in that block
                let would_increase_light = EmittedLight::less(existing_light_value, light_diminished)
                    != 0;
                proof {
                    lemma_channels(existing_light_value@, light_diminished@);
                    assert(existing_light_value@ == light_now[neighbour_pos.index()]);
                }

                if can_travel_into_block && would_increase_light {
                    proof {
                        assert(transparent_at(*blocks, neighbour_pos));
                        lemma_support_push(light_now, old_light, q0, *blocks, queue@, position, face_index as int,
                            light@, light_diminished@);
                        lemma_reach_push(light_now, old_light, q0, queue@, position, face_index as int,
                            light@, light_diminished@);
                    }
                    queue.push_back(
                        LightPropagationStep {
                            position: neighbour_pos,
                            light: light_diminished,
                            is_repair_step: false,
                        },
                    );
                }
            },
            None => {
                // send light update to neighbouring chunk
                let pos_in_neighbour_chunk = position.wrapping_add(neighbour_offset);
                let item = (
                    FaceIndex(face_index),
                    LightUpdate::EmittedLight(
                        LightPropagationStep {
                            position: pos_in_neighbour_chunk,
                            light: light_diminished,
                            is_repair_step: false,
                        },
                    ),
                );
                proof {
                    assert(pos_in_neighbour_chunk == wrapped_neighbour_spec(position, face_index as int));
                    assert(neighbour_spec(position, face_index as int) is None);
                    assert(light_diminished == EmittedLight(decrement_spec(light@)));
                    assert forall|c: int| 0 <= c < 4 implies #[trigger] sent_channel_ok(light_now, q0, position, light@, c) by {
                        assert(within_queue_reach(q0, position, light@, c));
                        assert(ch(light_now[idx], c) >= ch(light@, c));
                    }
                    lemma_outs_push(light_now, q0, out@, out_start, item, position, face_index as int, light@);
                }
                out.push(item);
            },
        }
        proof {
            assert forall|c: int|
                0 <= c < 3 implies #[trigger] cell_ok(
                light_now,
                queue@,
                out@,
                *blocks,
                pmax[idx],
                position,
                face_index as int,
                c,
            ) by {
                lemma_face_step(
                    light_now,
                    q_before,
                    queue@,
                    o_before,
                    out@,
                    *blocks,
                    pold,
                    pmax[idx],
                    light@,
                    light_diminished@,
                    position,
                    face_index as int,
                    c,
                );
            }
            assert forall|p: LocalBlockPosition, f: int, c: int|
                p.is_valid() && 0 <= f < 6 && 0 <= c < 3 && (p.index() != idx || f < face_index
                    + 1) implies #[trigger] cell_ok(
                light_now,
                queue@,
                out@,
                *blocks,
                pmax[p.index()],
                p,
                f,
                c,
            ) by {
                if p.index() == idx {
                    crate::terrain::position_types::lemma_index_injective(p, position);
                }
                if p.index() != idx || f < face_index {
                    lemma_cell_ok_transfer(
                        light_now,
                        q_before,
                        o_before,
                        light_now,
                        queue@,
                        out@,
                        *blocks,
                        pmax[p.index()],
                        pmax[p.index()],
                        p,
                        f,
                        c,
                    );
                }
            }
            assert forall|f: int, c: int|
                face_index + 1 <= f < 6 && 0 <= c < 3 implies #[trigger] cell_ok(
                light_now,
                queue@,
                out@,
                *blocks,
                pold,
                position,
                f,
                c,
            ) by {
                lemma_cell_ok_transfer(
                    light_now,
                    q_before,
                    o_before,
                    light_now,
                    queue@,
                    out@,
                    *blocks,
                    pold,
                    pold,
                    position,
                    f,
                    c,
                );
            }
        }
        face_index = face_index + 1;
    }
}

/// At the start, nothing has been written and every value is trivially propagated.
proof fn lemma_initial<Store: LightStore<EmittedLight>>(
    store: Store,
    queue: Seq<LightPropagationStep<EmittedLight>>,
    out: Seq<(FaceIndex, LightUpdate)>,
    blocks: ChunkBlockStorage,
    pmax: Seq<u16>,
)
    requires
        pmax == Seq::new(32768, |i: int| 0u16),
        forall|j: int| 0 <= j < 32768 ==> (#[trigger] store.light_at(j))@ < 0x1000,
    ensures
        light_inv(emitted_seq(store), emitted_seq(store), pmax),
        all_cells_ok(emitted_seq(store), queue, out, blocks, pmax),
{
    let light = emitted_seq(store);
    lemma_channels(0u16, 0u16);
    assert forall|j: int| 0 <= j < 32768 implies #[trigger] light[j] == max_spec(light[j], pmax[j])
        && pmax[j] < 0x1000 && light[j] < 0x1000 by {
        assert(pmax[j] == 0);
        assert(store.light_at(j)@ < 0x1000);
        lemma_channels(light[j], pmax[j]);
        lemma_channels(light[j], max_spec(light[j], pmax[j]));
    }
    assert forall|p: LocalBlockPosition, f: int, c: int|
        p.is_valid() && 0 <= f < 6 && 0 <= c < 3 implies #[trigger] cell_ok(
        light,
        queue,
        out,
        blocks,
        pmax[p.index()],
        p,
        f,
        c,
    ) by {
        crate::terrain::position_types::lemma_array_index_roundtrip(p);
        assert(pmax[p.index()] == 0);
        if let Some(q) = neighbour_spec(p, f) {
            lemma_neighbour_valid(p, f);
            crate::terrain::position_types::lemma_array_index_roundtrip(q);
            lemma_channels(light[q.index()], 0);
        }
    }
}

/// A skipped step (its light had already arrived) leaves the queue without breaking
/// the invariants.
proof fn lemma_skip(
    light: Seq<u16>,
    q1: Seq<LightPropagationStep<EmittedLight>>,
    q2: Seq<LightPropagationStep<EmittedLight>>,
    out: Seq<(FaceIndex, LightUpdate)>,
    blocks: ChunkBlockStorage,
    pmax: Seq<u16>,
    q0: Seq<LightPropagationStep<EmittedLight>>,
    n1: int,
    n2: int,
)
    requires
        light.len() == 32768,
        pmax.len() == 32768,
        all_cells_ok(light, q1, out, blocks, pmax),
        absorbed(light, pmax, q0, n1),
        q1.len() == q2.len() + 1,
        forall|k: int| 0 <= k < q2.len() ==> q2[k] == q1[k + 1],
        q1[0].position.is_valid(),
        !q1[0].is_repair_step,
        forall|c: int| 0 <= c < 4 ==> ch(light[q1[0].position.index()], c) >= ch(q1[0].light@, c),
        n2 == n1 || (n2 == n1 + 1 && q0[n1] == q1[0]),
    ensures
        all_cells_ok(light, q2, out, blocks, pmax),
        absorbed(light, pmax, q0, n2),
{
    assert forall|p: LocalBlockPosition, f: int, c: int|
        p.is_valid() && 0 <= f < 6 && 0 <= c < 3 implies #[trigger] cell_ok(
        light,
        q2,
        out,
        blocks,
        pmax[p.index()],
        p,
        f,
        c,
    ) by {
        assert(cell_ok(light, q1, out, blocks, pmax[p.index()], p, f, c));
        lemma_cell_ok_transfer(light, q1, out, light, q2, out, blocks, pmax[p.index()], pmax[p.index()], p, f, c);
    }
}

/// Writing a step's light keeps the invariants, with the value at the step's
/// position still propagated at its old maximum.
proof fn lemma_after_write(
    light_before: Seq<u16>,
    light_now: Seq<u16>,
    queue_before: Seq<LightPropagationStep<EmittedLight>>,
    queue_now: Seq<LightPropagationStep<EmittedLight>>,
    out: Seq<(FaceIndex, LightUpdate)>,
    blocks: ChunkBlockStorage,
    pm_before: Seq<u16>,
    pm_now: Seq<u16>,
    old_light: Seq<u16>,
    q0: Seq<LightPropagationStep<EmittedLight>>,
    n_before: int,
    n_now: int,
)
    requires
        light_inv(light_before, old_light, pm_before),
        all_cells_ok(light_before, queue_before, out, blocks, pm_before),
        absorbed(light_before, pm_before, q0, n_before),
        queue_before.len() == queue_now.len() + 1,
        forall|k: int| 0 <= k < queue_now.len() ==> queue_now[k] == queue_before[k + 1],
        queue_before[0].position.is_valid(),
        queue_before[0].light@ < 0x1000,
        light_now == light_before.update(
            queue_before[0].position.index(),
            max_spec(light_before[queue_before[0].position.index()], queue_before[0].light@),
        ),
        pm_now == pm_before.update(
            queue_before[0].position.index(),
            max_spec(pm_before[queue_before[0].position.index()], queue_before[0].light@),
        ),
        n_now == n_before || (n_now == n_before + 1 && q0[n_before] == queue_before[0]),
        queue_wf(q0),
        n_now <= q0.len(),
    ensures
        light_inv(light_now, old_light, pm_now),
        forall|j: int, c: int| 0 <= j < 32768 && 0 <= c < 4 ==> ch(light_now[j], c) >= ch(light_before[j], c),
        forall|p: LocalBlockPosition, f: int, c: int|
            p.is_valid() && 0 <= f < 6 && 0 <= c < 3 && p.index()
                != queue_before[0].position.index() ==> #[trigger] cell_ok(
                light_now,
                queue_now,
                out,
                blocks,
                pm_now[p.index()],
                p,
                f,
                c,
            ),
        forall|f: int, c: int|
            0 <= f < 6 && 0 <= c < 3 ==> #[trigger] cell_ok(
                light_now,
                queue_now,
                out,
                blocks,
                pm_before[queue_before[0].position.index()],
                queue_before[0].position,
                f,
                c,
            ),
        absorbed(light_now, pm_now, q0, n_now),
        phi(light_now, 32768) == phi(light_before, 32768) - weight(
            light_before[queue_before[0].position.index()],
        ) + weight(light_now[queue_before[0].position.index()]),
        phi(light_now, 32768) >= 0,
{
    let s = queue_before[0];
    let idx = s.position.index();
    crate::terrain::position_types::lemma_array_index_roundtrip(s.position);
    let pold = pm_before[idx];
    let lold = light_before[idx];
    let lnew = light_now[idx];
    lemma_channels(lold, s.light@);
    lemma_channels(old_light[idx], pold);
    lemma_channels(pold, s.light@);
    lemma_channels(old_light[idx], pm_now[idx]);
    lemma_channels(lnew, max_spec(old_light[idx], pm_now[idx]));
    lemma_channels(lnew, 0);
    lemma_phi(light_before, 32768, idx, lnew);
    lemma_phi(light_now, 32768, idx, lnew);
    assert forall|j: int| 0 <= j < 32768 implies #[trigger] light_now[j] == max_spec(
        old_light[j],
        pm_now[j],
    ) && pm_now[j] < 0x1000 && old_light[j] < 0x1000 by {
        if j != idx {
            assert(light_before[j] == max_spec(old_light[j], pm_before[j]));
        }
    }
    assert forall|j: int, c: int|
        0 <= j < 32768 && 0 <= c < 4 implies ch(light_now[j], c) >= ch(light_before[j], c) by {}
    lemma_after_pop(
        light_before,
        queue_before,
        light_now,
        queue_now,
        out,
        blocks,
        pm_before,
        pm_now,
        s.position,
    );
    assert forall|k: int, c: int| 0 <= k < n_now && 0 <= c < 4 implies ch(
        light_now[q0[k].position.index()],
        c,
    ) >= #[trigger] ch(q0[k].light@, c) && (q0[k].is_repair_step ==> ch(
        pm_now[q0[k].position.index()],
        c,
    ) >= ch(q0[k].light@, c)) by {
        if k < n_before {
            let j = q0[k].position.index();
            crate::terrain::position_types::lemma_array_index_roundtrip(q0[k].position);
            assert(ch(light_before[j], c) >= ch(q0[k].light@, c));
            if j == idx {
                assert(ch(pm_now[idx], c) >= ch(pm_before[idx], c));
                assert(ch(light_now[idx], c) >= ch(light_before[idx], c));
            } else {
                assert(pm_now[j] == pm_before[j]);
                assert(light_now[j] == light_before[j]);
            }
        } else {
            assert(q0[k] == s);
        }
    }
}

/// When the queue is empty, every raised value has reached all neighbours.
proof fn lemma_final(
    light: Seq<u16>,
    out: Seq<(FaceIndex, LightUpdate)>,
    blocks: ChunkBlockStorage,
    pmax: Seq<u16>,
    old_light: Seq<u16>,
    q0: Seq<LightPropagationStep<EmittedLight>>,
)
    requires
        light_inv(light, old_light, pmax),
        all_cells_ok(light, Seq::empty(), out, blocks, pmax),
        absorbed(light, pmax, q0, q0.len() as int),
        queue_wf(q0),
    ensures
        forall|i: int, c: int| 0 <= i < 32768 && 0 <= c < 4 ==> ch(light[i], c) >= ch(old_light[i], c),
        forall|p: LocalBlockPosition, f: int, c: int|
            p.is_valid() && 0 <= f < 6 && 0 <= c < 3 ==> ch(light[p.index()], c) == ch(
                old_light[p.index()],
                c,
            ) || cell_ok(light, Seq::empty(), out, blocks, light[p.index()], p, f, c),
        forall|k: int, c: int|
            0 <= k < q0.len() && 0 <= c < 4 ==> ch(light[q0[k].position.index()], c) >= ch(
                q0[k].light@,
                c,
            ),
        forall|k: int, f: int, c: int|
            0 <= k < q0.len() && q0[k].is_repair_step && 0 <= f < 6 && 0 <= c < 3 ==> cell_ok(
                light,
                Seq::empty(),
                out,
                blocks,
                q0[k].light@,
                q0[k].position,
                f,
                c,
            ),
{
    assert forall|i: int, c: int| 0 <= i < 32768 && 0 <= c < 4 implies ch(light[i], c) >= ch(
        old_light[i],
        c,
    ) by {
        lemma_channels(old_light[i], pmax[i]);
    }
    assert forall|p: LocalBlockPosition, f: int, c: int|
        p.is_valid() && 0 <= f < 6 && 0 <= c < 3 implies ch(light[p.index()], c) == ch(
        old_light[p.index()],
        c,
    ) || cell_ok(light, Seq::empty(), out, blocks, light[p.index()], p, f, c) by {
        crate::terrain::position_types::lemma_array_index_roundtrip(p);
        let i = p.index();
        lemma_channels(old_light[i], pmax[i]);
        assert(cell_ok(light, Seq::empty(), out, blocks, pmax[i], p, f, c));
        if ch(light[i], c) != ch(old_light[i], c) {
            lemma_cell_ok_transfer(
                light,
                Seq::empty(),
                out,
                light,
                Seq::empty(),
                out,
                blocks,
                pmax[i],
                light[i],
                p,
                f,
                c,
            );
        }
    }
    assert forall|k: int, c: int| 0 <= k < q0.len() && 0 <= c < 4 implies ch(
        light[q0[k].position.index()],
        c,
    ) >= ch(q0[k].light@, c) by {
        assert(ch(light[q0[k].position.index()], c) >= ch(q0[k].light@, c));
    }
    assert forall|k: int, f: int, c: int|
        0 <= k < q0.len() && q0[k].is_repair_step && 0 <= f < 6 && 0 <= c < 3 implies cell_ok(
        light,
        Seq::empty(),
        out,
        blocks,
        q0[k].light@,
        q0[k].position,
        f,
        c,
    ) by {
        let p = q0[k].position;
        assert(p.is_valid());
        assert(ch(pmax[p.index()], c) >= ch(q0[k].light@, c));
        assert(cell_ok(light, Seq::empty(), out, blocks, pmax[p.index()], p, f, c));
        lemma_cell_ok_transfer(
            light,
            Seq::empty(),
            out,
            light,
            Seq::empty(),
            out,
            blocks,
            pmax[p.index()],
            q0[k].light@,
            p,
            f,
            c,
        );
    }
}

/// After a step leaves the front of the queue and its light has arrived, every value
/// other than the one at its position is still propagated, and the value there before
/// the step is still propagated.
proof fn lemma_after_pop(
    l1: Seq<u16>,
    q1: Seq<LightPropagationStep<EmittedLight>>,
    l2: Seq<u16>,
    q2: Seq<LightPropagationStep<EmittedLight>>,
    out: Seq<(FaceIndex, LightUpdate)>,
    blocks: ChunkBlockStorage,
    pm1: Seq<u16>,
    pm2: Seq<u16>,
    cur: LocalBlockPosition,
)
    requires
        forall|p: LocalBlockPosition, f: int, c: int|
            p.is_valid() && 0 <= f < 6 && 0 <= c < 3 ==> #[trigger] cell_ok(
                l1,
                q1,
                out,
                blocks,
                pm1[p.index()],
                p,
                f,
                c,
            ),
        q1.len() == q2.len() + 1,
        forall|k: int| 0 <= k < q2.len() ==> q2[k] == q1[k + 1],
        q1[0].position == cur,
        cur.is_valid(),
        forall|c: int| 0 <= c < 4 ==> ch(l2[cur.index()], c) >= ch(q1[0].light@, c),
        l1.len() == 32768,
        l2.len() == 32768,
        forall|j: int, c: int| 0 <= j < 32768 && 0 <= c < 4 ==> ch(l2[j], c) >= ch(l1[j], c),
        pm1.len() == 32768,
        pm2.len() == 32768,
        forall|j: int| 0 <= j < 32768 && j != cur.index() ==> pm2[j] == pm1[j],
    ensures
        forall|p: LocalBlockPosition, f: int, c: int|
            p.is_valid() && 0 <= f < 6 && 0 <= c < 3 && p.index() != cur.index() ==> #[trigger] cell_ok(
                l2,
                q2,
                out,
                blocks,
                pm2[p.index()],
                p,
                f,
                c,
            ),
        forall|f: int, c: int|
            0 <= f < 6 && 0 <= c < 3 ==> #[trigger] cell_ok(
                l2,
                q2,
                out,
                blocks,
                pm1[cur.index()],
                cur,
                f,
                c,
            ),
{
    crate::terrain::position_types::lemma_array_index_roundtrip(cur);
    assert forall|p: LocalBlockPosition, f: int, c: int|
        p.is_valid() && 0 <= f < 6 && 0 <= c < 3 && p.index() != cur.index() implies #[trigger] cell_ok(
        l2,
        q2,
        out,
        blocks,
        pm2[p.index()],
        p,
        f,
        c,
    ) by {
        crate::terrain::position_types::lemma_array_index_roundtrip(p);
        assert(cell_ok(l1, q1, out, blocks, pm1[p.index()], p, f, c));
        lemma_cell_ok_transfer(l1, q1, out, l2, q2, out, blocks, pm1[p.index()], pm2[p.index()], p, f, c);
    }
    assert forall|f: int, c: int|
        0 <= f < 6 && 0 <= c < 3 implies #[trigger] cell_ok(
        l2,
        q2,
        out,
        blocks,
        pm1[cur.index()],
        cur,
        f,
        c,
    ) by {
        assert(cell_ok(l1, q1, out, blocks, pm1[cur.index()], cur, f, c));
        lemma_cell_ok_transfer(l1, q1, out, l2, q2, out, blocks, pm1[cur.index()], pm1[cur.index()], cur, f, c);
    }
}

/// Handling one face of a step that raised the value at `cur` from `pold` to `pnew`
/// makes the raised value propagated across that face.
proof fn lemma_face_step(
    light: Seq<u16>,
    q_old: Seq<LightPropagationStep<EmittedLight>>,
    q_new: Seq<LightPropagationStep<EmittedLight>>,
    o_old: Seq<(FaceIndex, LightUpdate)>,
    o_new: Seq<(FaceIndex, LightUpdate)>,
    blocks: ChunkBlockStorage,
    pold: u16,
    pnew: u16,
    s: u16,
    dec: u16,
    cur: LocalBlockPosition,
    fi: int,
    c: int,
)
    requires
        cell_ok(light, q_old, o_old, blocks, pold, cur, fi, c),
        cur.is_valid(),
        0 <= fi < 6,
        0 <= c < 3,
        light.len() == 32768,
        ch(pnew, c) == if ch(pold, c) < ch(s, c) {
            ch(s, c)
        } else {
            ch(pold, c)
        },
        ch(dec, c) == if ch(s, c) == 0 {
            0
        } else {
            ch(s, c) - 1
        },
        match neighbour_spec(cur, fi) {
            Some(q) => o_new == o_old && ((q_new == q_old.push(
                LightPropagationStep { position: q, light: EmittedLight(dec), is_repair_step: false },
            )) || (q_new == q_old && (!transparent_at(blocks, q) || ch(light[q.index()], c) >= ch(
                dec,
                c,
            )))),
            None => q_new == q_old && o_new == o_old.push(
                (
                    FaceIndex(fi as usize),
                    LightUpdate::EmittedLight(
                        LightPropagationStep {
                            position: wrapped_neighbour_spec(cur, fi),
                            light: EmittedLight(dec),
                            is_repair_step: false,
                        },
                    ),
                ),
            ),
        },
    ensures
        cell_ok(light, q_new, o_new, blocks, pnew, cur, fi, c),
{
    lemma_neighbour_valid(cur, fi);
    match neighbour_spec(cur, fi) {
        Some(q) => {
            if ch(pnew, c) == ch(pold, c) {
                if q_new == q_old {
                } else {
                    if transparent_at(blocks, q) && ch(light[q.index()], c) + 1 < ch(pold, c) {
                        let k = choose|k: int|
                            0 <= k < q_old.len() && q_old[k].position == q && ch(q_old[k].light@, c)
                                + 1 >= ch(pold, c);
                        assert(q_new[k] == q_old[k]);
                    }
                }
            } else {
                if q_new != q_old {
                    assert(q_new[q_old.len() as int].position == q);
                }
            }
        },
        None => {
            if ch(pnew, c) == ch(pold, c) {
                if ch(pold, c) > 1 {
                    let k = choose|k: int|
                        0 <= k < o_old.len() && out_covers(o_old[k], cur, fi, c, ch(pold, c));
                    assert(o_new[k] == o_old[k]);
                }
            } else {
                assert(out_covers(o_new[o_old.len() as int], cur, fi, c, ch(pnew, c)));
            }
        },
    }
}

/// A well-formed update for a neighbouring chunk produced by emitted light propagation.
pub open spec fn out_wf(e: (FaceIndex, LightUpdate)) -> bool {
    &&& e.0.is_valid()
    &&& match e.1 {
        LightUpdate::EmittedLight(s) => s.position.is_valid() && s.light@ < 0x1000
            && !s.is_repair_step,
        _ => false,
    }
}

} // verus!

verus! {

/// Number of indices below `n` that are not in `vis`.
pub open spec fn unvisited(vis: Set<u64>, n: int) -> int
    decreases n,
{
    if n <= 0 {
        0
    } else {
        unvisited(vis, n - 1) + if vis.contains((n - 1) as u64) {
            0int
        } else {
            1int
        }
    }
}

/// Adding a value below `n` that was missing removes exactly one unvisited index.
proof fn lemma_unvisited(vis: Set<u64>, n: int, x: u64)
    requires
        0 <= n <= 32768,
    ensures
        unvisited(vis, n) >= 0,
        unvisited(vis.insert(x), n) >= 0,
        unvisited(vis.insert(x), n) == unvisited(vis, n) - if (x as int) < n && !vis.contains(x) {
            1int
        } else {
            0int
        },
    decreases n,
{
    if n > 0 {
        lemma_unvisited(vis, n - 1, x);
    }
}

/// The emitted light a block of kind `id` gives off.
pub open spec fn emission_light_spec(id: int) -> u16 {
    if id == 4 {
        pack4(15, 10, 5, 0)
    } else {
        0
    }
}

/// True if a block of kind `id` gives off light.
pub open spec fn emits_spec(id: int) -> bool {
    id == 4
}

impl EmittedLight {
    /// Create a packed `EmittedLight` from the 3 light values
    pub fn from_ivec3(rgb: IVec3) -> (r: Self)
        requires
            0 <= rgb.x < 16,
            0 <= rgb.y < 16,
            0 <= rgb.z < 16,
        ensures
            r@ == pack4(rgb.x as u16, rgb.y as u16, rgb.z as u16, 0),
    {
        Self::from_rgb(rgb.x as u16, rgb.y as u16, rgb.z as u16)
    }
}

/// A light update for a neighbouring chunk produced by shadow propagation.
pub open spec fn shadow_out_wf(e: (FaceIndex, LightUpdate)) -> bool {
    &&& e.0.is_valid()
    &&& match e.1 {
        LightUpdate::EmittedLightShadow(s) => s.position.is_valid(),
        _ => false,
    }
}

/// Update `e` goes across face `f` of the border block `p`, beyond which the chunk has no
/// block: a shadow of depth `d` processed at `p`, one shallower, for the block of the
/// neighbouring chunk touching `p`. The shadow at `p` is within reach of the shadows `q0`.
pub open spec fn shadow_sent(
    q0: Seq<ShadowPropagationStep>,
    e: (FaceIndex, LightUpdate),
    p: LocalBlockPosition,
    f: int,
    d: u32,
) -> bool {
    &&& p.is_valid()
    &&& 0 <= f < 6
    &&& neighbour_spec(p, f) is None
    &&& d > 0
    &&& shadow_from(q0, p, d as int)
    &&& e == (
        FaceIndex(f as usize),
        LightUpdate::EmittedLightShadow(
            ShadowPropagationStep { position: wrapped_neighbour_spec(p, f), depth: (d - 1) as u32 },
        ),
    )
}

/// Update `e` is one that shadow propagation from the shadows `q0` sends to a
/// neighbouring chunk.
pub open spec fn shadow_out_ok(q0: Seq<ShadowPropagationStep>, e: (FaceIndex, LightUpdate)) -> bool {
    exists|p: LocalBlockPosition, f: int, d: u32| #[trigger] shadow_sent(q0, e, p, f, d)
}

/// A repair step carries light, and stands within reach of the shadows `q0`.
pub open spec fn repair_in_reach(s: LightPropagationStep<EmittedLight>, q0: Seq<ShadowPropagationStep>) -> bool {
    s.light@ != 0 && shadow_from(q0, s.position, 0)
}

/// Every shadow step is at a valid position.
pub open spec fn shadow_queue_wf(queue: Seq<ShadowPropagationStep>) -> bool {
    forall|k: int| 0 <= k < queue.len() ==> (#[trigger] queue[k]).position.is_valid()
}

/// The shadow step `s` has been sent across every face that leaves the chunk.
pub open spec fn shadow_sent_out(s: ShadowPropagationStep, out: Seq<(FaceIndex, LightUpdate)>) -> bool {
    forall|f: int|
        0 <= f < 6 && #[trigger] neighbour_spec(s.position, f) is None ==> exists|j: int|
            0 <= j < out.len() && out[j] == (
            FaceIndex(f as usize),
            LightUpdate::EmittedLightShadow(
                ShadowPropagationStep {
                    position: wrapped_neighbour_spec(s.position, f),
                    depth: (s.depth - 1) as u32,
                },
            ),
        )
}

/// The absolute value of `x`.
pub open spec fn abs_int(x: int) -> int {
    if x < 0 {
        -x
    } else {
        x
    }
}

/// The number of blocks between `a` and `b`, counted along the axes.
pub open spec fn block_distance(a: LocalBlockPosition, b: LocalBlockPosition) -> int {
    abs_int(a.0.x - b.0.x) + abs_int(a.0.y - b.0.y) + abs_int(a.0.z - b.0.z)
}

/// A shadow of depth `depth` at `p` is within reach of one of the shadows `q0`: it is
/// no farther from it than the depth that shadow has lost on the way.
pub open spec fn shadow_from(q0: Seq<ShadowPropagationStep>, p: LocalBlockPosition, depth: int) -> bool {
    exists|k: int| 0 <= k < q0.len() && #[trigger] block_distance(q0[k].position, p) + depth <= q0[k].depth
}

/// A shadow one block further on is one deeper into its reach.
proof fn lemma_shadow_step(q0: Seq<ShadowPropagationStep>, p: LocalBlockPosition, f: int, depth: int)
    requires
        shadow_from(q0, p, depth),
        0 <= f < 6,
        neighbour_spec(p, f) is Some,
    ensures
        shadow_from(q0, neighbour_spec(p, f)->0, depth - 1),
{
    let k = choose|k: int| 0 <= k < q0.len() && #[trigger] block_distance(q0[k].position, p) + depth <= q0[k].depth;
    let q = neighbour_spec(p, f)->0;
    assert(block_distance(q0[k].position, q) <= block_distance(q0[k].position, p) + 1);
}

/// A shadow within reach is also within reach at any smaller depth.
proof fn lemma_shadow_shallower(q0: Seq<ShadowPropagationStep>, p: LocalBlockPosition, d1: int, d2: int)
    requires
        shadow_from(q0, p, d1),
        d2 <= d1,
    ensures
        shadow_from(q0, p, d2),
{
    let k = choose|k: int| 0 <= k < q0.len() && #[trigger] block_distance(q0[k].position, p) + d1 <= q0[k].depth;
    assert(block_distance(q0[k].position, p) + d2 <= q0[k].depth);
}

/// A repair step brings back the light its block had before, or the block's own
/// emission.
pub open spec fn repair_ok(
    s: LightPropagationStep<EmittedLight>,
    old_light: Seq<u16>,
    blocks: ChunkBlockStorage,
) -> bool {
    ||| s.light@ == old_light[s.position.index()]
    ||| s.light@ == emission_light_spec(blocks.block_at(s.position.index()).0 as int)
}

/// Every cleared emitting block has been queued again with its own emission.
pub open spec fn emitters_requeued(
    light: Seq<u16>,
    old_light: Seq<u16>,
    blocks: ChunkBlockStorage,
    lq: Seq<LightPropagationStep<EmittedLight>>,
    lq0_len: int,
) -> bool {
    forall|i: int|
        0 <= i < 32768 && #[trigger] light[i] != old_light[i] && emits_spec(
            blocks.block_at(i).0 as int,
        ) ==> exists|k: int|
            lq0_len <= k < lq.len() && lq[k].position.index() == i && lq[k].light@
                == emission_light_spec(blocks.block_at(i).0 as int)
}

/// Propagate absense of emitted light within a chunk, returning the shadow
/// updates to be applied outside of the chunk
pub fn propagate_emitted_light_shadow<Store: LightStore<EmittedLight>>(
    light_store: &mut Store,
    shadow_propagation_queue: &mut VecDeque<ShadowPropagationStep>,
    light_propagation_queue: &mut VecDeque<LightPropagationStep<EmittedLight>>,
    light_updates_outside_chunk: &mut Vec<(FaceIndex, LightUpdate)>,
    blocks: &ChunkBlockStorage,
)
    requires
        old(light_store).store_wf(),
        forall|v: EmittedLight| Store::storable(v) <==> v@ < 0x1000,
        forall|j: int| 0 <= j < 32768 ==> (#[trigger] old(light_store).light_at(j))@ < 0x1000,
        blocks.wf(),
        blocks.all_registered(),
        shadow_queue_wf(old(shadow_propagation_queue)@),
    ensures
        final(light_store).store_wf(),
        final(light_store).rest() == old(light_store).rest(),
        final(shadow_propagation_queue)@.len() == 0,
        // light is only ever cleared
        forall|i: int|
            0 <= i < 32768 ==> #[trigger] emitted_seq(*final(light_store))[i] == emitted_seq(
                *old(light_store),
            )[i] || emitted_seq(*final(light_store))[i] == 0,
        // the queued shadows cleared their blocks and were sent across the chunk border
        forall|k: int|
            0 <= k < old(shadow_propagation_queue)@.len() && (#[trigger] old(shadow_propagation_queue)@[k]).depth > 0 ==> emitted_seq(*final(light_store))[old(shadow_propagation_queue)@[k].position.index()] == 0 && shadow_sent_out(
                old(shadow_propagation_queue)@[k],
                final(light_updates_outside_chunk)@,
            ),
        // only blocks within reach of a queued shadow are cleared
        forall|p: LocalBlockPosition|
            p.is_valid() ==> #[trigger] emitted_seq(*final(light_store))[p.index()] == emitted_seq(*old(light_store))[p.index()]
                || shadow_from(old(shadow_propagation_queue)@, p, 1),
        // cleared emitters are queued again for light propagation
        emitters_requeued(
            emitted_seq(*final(light_store)),
            emitted_seq(*old(light_store)),
            *blocks,
            final(light_propagation_queue)@,
            old(light_propagation_queue)@.len() as int,
        ),
        // light steps are only appended, and the new ones repair light
        final(light_propagation_queue)@.len() >= old(light_propagation_queue)@.len(),
        forall|k: int|
            0 <= k < old(light_propagation_queue)@.len() ==> #[trigger] final(light_propagation_queue)@[k] == old(light_propagation_queue)@[k],
        forall|k: int|
            old(light_propagation_queue)@.len() <= k < final(light_propagation_queue)@.len() ==> (
            #[trigger] final(light_propagation_queue)@[k]).is_repair_step && final(light_propagation_queue)@[k].position.is_valid() && final(light_propagation_queue)@[k].light@ < 0x1000
                && repair_ok(final(light_propagation_queue)@[k], emitted_seq(*old(light_store)), *blocks)
                && repair_in_reach(final(light_propagation_queue)@[k], old(shadow_propagation_queue)@),
        // updates for neighbouring chunks are only appended
        final(light_updates_outside_chunk)@.len() >= old(light_updates_outside_chunk)@.len(),
        forall|k: int|
            0 <= k < old(light_updates_outside_chunk)@.len() ==> #[trigger] final(light_updates_outside_chunk)@[k] == old(light_updates_outside_chunk)@[k],
        forall|k: int|
            old(light_updates_outside_chunk)@.len() <= k < final(light_updates_outside_chunk)@.len()
                ==> shadow_out_wf(#[trigger] final(light_updates_outside_chunk)@[k]) && shadow_out_ok(
                old(shadow_propagation_queue)@,
                final(light_updates_outside_chunk)@[k],
            ),
{
    let ghost q0 = shadow_propagation_queue@;
    let ghost lq0 = light_propagation_queue@;
    let ghost out0 = light_updates_outside_chunk@;
    let ghost old_light = emitted_seq(*light_store);
    let ghost mut n_popped: int = 0;
    let mut visited = FxSet::new();
    proof {
        lemma_unvisited(fx_set_contents(visited), 32768, 0);
        assert forall|k: int| 0 <= k < q0.len() implies shadow_from(q0, (#[trigger] q0[k]).position, q0[k].depth as int) by {
            assert(block_distance(q0[k].position, q0[k].position) == 0);
        }
    }

    while shadow_propagation_queue.len() > 0
        invariant
            light_store.store_wf(),
            light_store.rest() == old(light_store).rest(),
            forall|v: EmittedLight| Store::storable(v) <==> v@ < 0x1000,
            blocks.wf(),
            blocks.all_registered(),
            old_light.len() == 32768,
            forall|j: int| 0 <= j < 32768 ==> #[trigger] old_light[j] < 0x1000,
            q0 == old(shadow_propagation_queue)@,
            lq0 == old(light_propagation_queue)@,
            out0 == old(light_updates_outside_chunk)@,
            old_light == emitted_seq(*old(light_store)),
            shadow_queue_wf(shadow_propagation_queue@),
            shadow_queue_wf(q0),
            0 <= n_popped <= q0.len(),
            shadow_propagation_queue@.len() >= q0.len() - n_popped,
            forall|k: int|
                0 <= k < q0.len() - n_popped ==> #[trigger] shadow_propagation_queue@[k] == q0[k
                    + n_popped],
            forall|i: int|
                0 <= i < 32768 ==> #[trigger] emitted_seq(*light_store)[i] == old_light[i]
                    || emitted_seq(*light_store)[i] == 0,
            forall|k: int|
                0 <= k < n_popped && (#[trigger] q0[k]).depth > 0 ==> emitted_seq(
                    *light_store,
                )[q0[k].position.index()] == 0 && shadow_sent_out(
                    q0[k],
                    light_updates_outside_chunk@,
                ),
            emitters_requeued(
                emitted_seq(*light_store),
                old_light,
                *blocks,
                light_propagation_queue@,
                lq0.len() as int,
            ),
            light_propagation_queue@.len() >= lq0.len(),
            forall|k: int| 0 <= k < lq0.len() ==> #[trigger] light_propagation_queue@[k] == lq0[k],
            forall|k: int|
                lq0.len() <= k < light_propagation_queue@.len() ==> (
                #[trigger] light_propagation_queue@[k]).is_repair_step
                    && light_propagation_queue@[k].position.is_valid()
                    && light_propagation_queue@[k].light@ < 0x1000
                    && repair_ok(light_propagation_queue@[k], old_light, *blocks)
                    && repair_in_reach(light_propagation_queue@[k], q0),
            light_updates_outside_chunk@.len() >= out0.len(),
            forall|k: int|
                0 <= k < out0.len() ==> #[trigger] light_updates_outside_chunk@[k] == out0[k],
            forall|k: int|
                out0.len() <= k < light_updates_outside_chunk@.len() ==> shadow_out_wf(
                    #[trigger] light_updates_outside_chunk@[k],
                ) && shadow_out_ok(q0, light_updates_outside_chunk@[k]),
            unvisited(fx_set_contents(visited), 32768) >= 0,
            forall|k: int|
                0 <= k < shadow_propagation_queue@.len() ==> shadow_from(
                    q0,
                    (#[trigger] shadow_propagation_queue@[k]).position,
                    shadow_propagation_queue@[k].depth as int,
                ),
            forall|p: LocalBlockPosition|
                p.is_valid() ==> #[trigger] emitted_seq(*light_store)[p.index()] == old_light[p.index()] || shadow_from(q0, p, 1),
        decreases unvisited(fx_set_contents(visited), 32768), shadow_propagation_queue@.len(),
    {
        let ghost u_start = unvisited(fx_set_contents(visited), 32768);
        let ghost l_start = shadow_propagation_queue@.len();
        let ghost queue_before = shadow_propagation_queue@;
        let ghost n_before = n_popped;
        let step = match shadow_propagation_queue.pop_front() {
            Some(s) => s,
            None => {
                return ;
            },
        };
        proof {
            assert(shadow_from(q0, queue_before[0].position, queue_before[0].depth as int));
            assert forall|k: int| 0 <= k < shadow_propagation_queue@.len() implies shadow_from(
                q0,
                (#[trigger] shadow_propagation_queue@[k]).position,
                shadow_propagation_queue@[k].depth as int,
            ) by {
                assert(shadow_propagation_queue@[k] == queue_before[k + 1]);
            }
            if n_popped < q0.len() {
                assert(queue_before[0] == q0[n_popped]);
                n_popped = n_popped + 1;
            }
            assert(queue_before[0].position.is_valid());
            crate::terrain::position_types::lemma_array_index_roundtrip(step.position);
        }
        let ghost idx = step.position.index();
        let key = step.position.get_array_index() as u64;
        proof {
            lemma_unvisited(fx_set_contents(visited), 32768, key);
        }
        visited.insert(key);

        if step.depth == 0 {
            // Repair lighting by re-queueing the light at the edge of the shadow
            // for propagation
            let light = light_store.read(step.position);
            let ghost lq_before = light_propagation_queue@;

            if light.0 != 0 {
                proof {
                    assert(emitted_seq(*light_store)[idx] == light@);
                    assert(light@ != 0);
                    assert(light@ == old_light[idx]);
                    assert(step == queue_before[0]);
                }
                light_propagation_queue.push_back(
                    LightPropagationStep { position: step.position, light, is_repair_step: true },
                );
            }
            proof {
                assert forall|i: int|
                    0 <= i < 32768 && #[trigger] emitted_seq(*light_store)[i] != old_light[i]
                        && emits_spec(blocks.block_at(i).0 as int) implies exists|k: int|
                    lq0.len() <= k < light_propagation_queue@.len()
                        && light_propagation_queue@[k].position.index() == i
                        && light_propagation_queue@[k].light@ == emission_light_spec(
                        blocks.block_at(i).0 as int,
                    ) by {
                    let k = choose|k: int|
                        lq0.len() <= k < lq_before.len() && lq_before[k].position.index() == i
                            && lq_before[k].light@ == emission_light_spec(blocks.block_at(i).0 as int);
                    assert(light_propagation_queue@[k] == lq_before[k]);
                }
                if n_before < n_popped {
                    assert(q0[n_before] == step);
                }
            }
            continue ;
        }
        let ghost light_b = emitted_seq(*light_store);
        let ghost lq_b = light_propagation_queue@;
        light_store.write(step.position, EmittedLight(0));
        let ghost light_now = emitted_seq(*light_store);
        proof {
            assert(light_now =~= light_b.update(idx, 0));
            assert forall|p: LocalBlockPosition| p.is_valid() implies #[trigger] light_now[p.index()] == old_light[p.index()] || shadow_from(q0, p, 1) by {
                if p.index() == idx {
                    crate::terrain::position_types::lemma_index_injective(p, step.position);
                    let k = choose|k: int| 0 <= k < q0.len() && #[trigger] block_distance(q0[k].position, step.position) + step.depth <= q0[k].depth;
                    assert(block_distance(q0[k].position, p) + 1 <= q0[k].depth);
                } else {
                    crate::terrain::position_types::lemma_array_index_roundtrip(p);
                    assert(light_now[p.index()] == light_b[p.index()]);
                }
            }
        }

        // Repair lighting by re-queueing any light emitting blocks encompassed in the shadow for
        // propagation
        let block_id = blocks.get_block(step.position);
        let block = get_block(block_id);
        if !block.emission.is_zero() {
            let emission = EmittedLight::from_ivec3(block.emission);
            light_propagation_queue.push_back(
                LightPropagationStep {
                    position: step.position,
                    light: emission,
                    is_repair_step: true,
                },
            );
            proof {
                assert(pack4(15, 10, 5, 0) < 0x1000) by (bit_vector);
                assert(pack4(15, 10, 5, 0) != 0) by (bit_vector);
                lemma_shadow_shallower(q0, step.position, step.depth as int, 0);
            }
        }
        let ghost lq_mid = light_propagation_queue@;
        let ghost out_mid = light_updates_outside_chunk@;
        proof {
            assert forall|i: int|
                0 <= i < 32768 && #[trigger] light_now[i] != old_light[i] && emits_spec(
                    blocks.block_at(i).0 as int,
                ) implies exists|k: int|
                lq0.len() <= k < lq_mid.len() && lq_mid[k].position.index() == i
                    && lq_mid[k].light@ == emission_light_spec(blocks.block_at(i).0 as int) by {
                if i == idx {
                    assert(lq_mid[lq_mid.len() - 1].position.index() == i);
                } else {
                    assert(light_now[i] == light_b[i]);
                    let k = choose|k: int|
                        lq0.len() <= k < lq_b.len() && lq_b[k].position.index() == i
                            && lq_b[k].light@ == emission_light_spec(blocks.block_at(i).0 as int);
                    assert(lq_mid[k] == lq_b[k]);
                }
            }
        }

        // Propagate shadow to neighbours
        let mut neighbour_index: usize = 0;
        while neighbour_index < 6
            invariant
                blocks.wf(),
                step.position.is_valid(),
                idx == step.position.index(),
                step.depth > 0,
                neighbour_index <= 6,
                shadow_queue_wf(shadow_propagation_queue@),
                shadow_from(q0, step.position, step.depth as int),
                forall|k: int|
                    0 <= k < shadow_propagation_queue@.len() ==> shadow_from(
                        q0,
                        (#[trigger] shadow_propagation_queue@[k]).position,
                        shadow_propagation_queue@[k].depth as int,
                    ),
                shadow_propagation_queue@.len() >= l_start - 1,
                forall|k: int|
                    0 <= k < l_start - 1 ==> #[trigger] shadow_propagation_queue@[k]
                        == queue_before[k + 1],
                unvisited(fx_set_contents(visited), 32768) >= 0,
                unvisited(fx_set_contents(visited), 32768) <= u_start,
                unvisited(fx_set_contents(visited), 32768) + shadow_propagation_queue@.len()
                    <= u_start + l_start - 1,
                light_updates_outside_chunk@.len() >= out_mid.len(),
                forall|k: int|
                    0 <= k < out_mid.len() ==> #[trigger] light_updates_outside_chunk@[k]
                        == out_mid[k],
                forall|k: int|
                    out_mid.len() <= k < light_updates_outside_chunk@.len() ==> shadow_out_wf(
                        #[trigger] light_updates_outside_chunk@[k],
                    ) && shadow_out_ok(q0, light_updates_outside_chunk@[k]),
                forall|f: int|
                    0 <= f < neighbour_index && #[trigger] neighbour_spec(step.position, f) is None
                        ==> exists|j: int|
                        0 <= j < light_updates_outside_chunk@.len()
                            && light_updates_outside_chunk@[j] == (
                        FaceIndex(f as usize),
                        LightUpdate::EmittedLightShadow(
                            ShadowPropagationStep {
                                position: wrapped_neighbour_spec(step.position, f),
                                depth: (step.depth - 1) as u32,
                            },
                        ),
                    ),
            decreases 6 - neighbour_index,
        {
            let ghost out_before = light_updates_outside_chunk@;
            let neighbour_offset = face_normal(neighbour_index);
            proof {
                lemma_neighbour_valid(step.position, neighbour_index as int);
            }
            match step.position.try_add(neighbour_offset) {
                Some(neighbour_pos) => {
                    proof {
                        crate::terrain::position_types::lemma_array_index_roundtrip(neighbour_pos);
                    }
                    let neighbour_key = neighbour_pos.get_array_index() as u64;
                    proof {
                        lemma_unvisited(fx_set_contents(visited), 32768, neighbour_key);
                    }
                    if visited.insert(neighbour_key) {
                        proof {
                            lemma_shadow_step(q0, step.position, neighbour_index as int, step.depth as int);
                        }
                        shadow_propagation_queue.push_back(
                            ShadowPropagationStep {
                                position: neighbour_pos,
                                depth: step.depth - 1,
                            },
                        );
                    }
                },
                None => {
                    let pos_in_neighbour_chunk = step.position.wrapping_add(neighbour_offset);

                    light_updates_outside_chunk.push(
                        (
                            FaceIndex(neighbour_index),
                            LightUpdate::EmittedLightShadow(
                                ShadowPropagationStep {
                                    position: pos_in_neighbour_chunk,
                                    depth: step.depth - 1,
                                },
                            ),
                        ),
                    );
                    proof {
                        assert(shadow_sent(
                            q0,
                            light_updates_outside_chunk@[out_before.len() as int],
                            step.position,
                            neighbour_index as int,
                            step.depth,
                        ));
                    }
                },
            }
            proof {
                assert forall|f: int|
                    0 <= f < neighbour_index + 1 && #[trigger] neighbour_spec(step.position, f) is None
                        implies exists|j: int|
                        0 <= j < light_updates_outside_chunk@.len()
                            && light_updates_outside_chunk@[j] == (
                        FaceIndex(f as usize),
                        LightUpdate::EmittedLightShadow(
                            ShadowPropagationStep {
                                position: wrapped_neighbour_spec(step.position, f),
                                depth: (step.depth - 1) as u32,
                            },
                        ),
                    ) by {
                    if f < neighbour_index {
                        let j = choose|j: int|
                            0 <= j < out_before.len() && out_before[j] == (
                            FaceIndex(f as usize),
                            LightUpdate::EmittedLightShadow(
                                ShadowPropagationStep {
                                    position: wrapped_neighbour_spec(step.position, f),
                                    depth: (step.depth - 1) as u32,
                                },
                            ),
                        );
                        assert(light_updates_outside_chunk@[j] == out_before[j]);
                    } else {
                        assert(light_updates_outside_chunk@[out_before.len() as int] == (
                            FaceIndex(f as usize),
                            LightUpdate::EmittedLightShadow(
                                ShadowPropagationStep {
                                    position: wrapped_neighbour_spec(step.position, f),
                                    depth: (step.depth - 1) as u32,
                                },
                            ),
                        ));
                    }
                }
            }
            neighbour_index = neighbour_index + 1;
        }
        proof {
            assert forall|k: int|
                0 <= k < n_popped && (#[trigger] q0[k]).depth > 0 implies emitted_seq(
                *light_store,
            )[q0[k].position.index()] == 0 && shadow_sent_out(q0[k], light_updates_outside_chunk@) by {
                if k < n_before {
                    assert(shadow_sent_out(q0[k], out_mid));
                    assert forall|f: int|
                        0 <= f < 6 && #[trigger] neighbour_spec(q0[k].position, f) is None implies exists|j: int|
                        0 <= j < light_updates_outside_chunk@.len()
                            && light_updates_outside_chunk@[j] == (
                        FaceIndex(f as usize),
                        LightUpdate::EmittedLightShadow(
                            ShadowPropagationStep {
                                position: wrapped_neighbour_spec(q0[k].position, f),
                                depth: (q0[k].depth - 1) as u32,
                            },
                        ),
                    ) by {
                        let j = choose|j: int|
                            0 <= j < out_mid.len() && out_mid[j] == (
                            FaceIndex(f as usize),
                            LightUpdate::EmittedLightShadow(
                                ShadowPropagationStep {
                                    position: wrapped_neighbour_spec(q0[k].position, f),
                                    depth: (q0[k].depth - 1) as u32,
                                },
                            ),
                        );
                        assert(light_updates_outside_chunk@[j] == out_mid[j]);
                    }
                } else {
                    assert(q0[k] == step);
                }
            }
        }
    }
}

} // verus!

verus! {

/// Column and row of a tile index on a chunk side.
pub proof fn lemma_side_index(idx: usize)
    requires
        idx < 1024,
    ensures
        idx & 31 == idx % 32,
        idx >> 5 == idx / 32,
        idx % 32 < 32,
        idx / 32 < 32,
{
    assert(idx & 31 == idx % 32 && idx >> 5 == idx / 32) by (bit_vector);
}

/// `st` is a step that the initial emitted light queue may hold: a light emitting
/// block with its emission, or a transparent border block receiving one less than the
/// light on the touching side of a neighbouring chunk.
pub open spec fn initial_emitted_step(
    blocks: Seq<BlockId>,
    sides: Seq<Option<ChunkSideLight>>,
    st: LightPropagationStep<EmittedLight>,
) -> bool {
    ||| (emits_spec(blocks[st.position.index()].0 as int) && st.light@ == emission_light_spec(
        blocks[st.position.index()].0 as int,
    ))
    ||| exists|s: int, idx: int|
        0 <= s < sides.len() && 0 <= idx < 1024 && #[trigger] side_step_ok(
            blocks,
            sides[s],
            s,
            idx,
            st,
        )
}

/// `st` brings one less than tile `idx` of side `side` of a neighbouring chunk into the
/// transparent block of this chunk touching it.
pub open spec fn side_step_ok(
    blocks: Seq<BlockId>,
    side: Option<ChunkSideLight>,
    s: int,
    idx: int,
    st: LightPropagationStep<EmittedLight>,
) -> bool {
    match side {
        Some(side) => {
            &&& st.position == side_position_spec(s, idx % 32, idx / 32)
            &&& st.light@ == decrement_spec(side.emitted@[idx]@)
            &&& st.light@ != 0
            &&& !block_is_opaque_spec(blocks[st.position.index()].0 as int)
            &&& !st.is_repair_step
        },
        None => false,
    }
}

/// The block position with array index `i`.
pub open spec fn index_position(i: int) -> LocalBlockPosition {
    LocalBlockPosition(UVec3 { x: (i % 32) as u32, y: ((i / 32) % 32) as u32, z: ((i / 1024) % 32) as u32 })
}

/// The emission steps of the light emitting blocks among the first `n`, in index order.
pub open spec fn emitter_steps(blocks: Seq<BlockId>, n: nat) -> Seq<LightPropagationStep<EmittedLight>>
    decreases n,
{
    if n == 0 {
        Seq::empty()
    } else {
        let i = n - 1;
        let rest = emitter_steps(blocks, (n - 1) as nat);
        if emits_spec(blocks[i].0 as int) {
            rest.push(
                LightPropagationStep {
                    position: index_position(i),
                    light: EmittedLight(emission_light_spec(blocks[i].0 as int)),
                    is_repair_step: false,
                },
            )
        } else {
            rest
        }
    }
}

/// The steps bringing light in across side `s` of the chunk from the first `n` tiles of
/// the neighbouring chunk's touching side, in tile order: one less than the tile's light,
/// into the transparent block touching it, when that leaves any light.
pub open spec fn side_steps(blocks: Seq<BlockId>, side: ChunkSideLight, s: int, n: nat) -> Seq<
    LightPropagationStep<EmittedLight>,
>
    decreases n,
{
    if n == 0 {
        Seq::empty()
    } else {
        let idx = n - 1;
        let rest = side_steps(blocks, side, s, (n - 1) as nat);
        let st = LightPropagationStep {
            position: side_position_spec(s, idx % 32, idx / 32),
            light: EmittedLight(decrement_spec(side.emitted@[idx]@)),
            is_repair_step: false,
        };
        if st.light@ != 0 && !block_is_opaque_spec(blocks[st.position.index()].0 as int) {
            rest.push(st)
        } else {
            rest
        }
    }
}

/// The steps bringing light in across the first `n` sides, side by side.
pub open spec fn sides_steps(blocks: Seq<BlockId>, sides: Seq<Option<ChunkSideLight>>, n: nat) -> Seq<
    LightPropagationStep<EmittedLight>,
>
    decreases n,
{
    if n == 0 {
        Seq::empty()
    } else {
        let rest = sides_steps(blocks, sides, (n - 1) as nat);
        match sides[n - 1] {
            Some(side) => rest + side_steps(blocks, side, n - 1, 1024),
            None => rest,
        }
    }
}

/// `q` is the initial emitted light queue of a chunk: every step brings the emission of
/// a light emitting block or light entering from a neighbouring chunk, none is a repair
/// step, and every such light is there.
pub open spec fn initial_emitted_queue(
    blocks: Seq<BlockId>,
    surrounding_sides_light: Seq<Option<ChunkSideLight>>,
    q: Seq<LightPropagationStep<EmittedLight>>,
) -> bool {
    &&& queue_wf(q)
    &&& forall|k: int| 0 <= k < q.len() ==> !(#[trigger] q[k]).is_repair_step
    &&& forall|k: int|
            0 <= k < q.len() ==> initial_emitted_step(blocks, surrounding_sides_light, #[trigger] q[k])
    &&& forall|i: int|
            0 <= i < 32768 && emits_spec((#[trigger] blocks[i]).0 as int) ==> exists|k: int|
                0 <= k < q.len() && q[k].position.index() == i && q[k].light@
                    == emission_light_spec(blocks[i].0 as int)
    &&& forall|s: int, idx: int, st: LightPropagationStep<EmittedLight>|
            0 <= s < surrounding_sides_light.len() && 0 <= idx < 1024 && #[trigger] side_step_ok(
                blocks,
                surrounding_sides_light[s],
                s,
                idx,
                st,
            ) ==> exists|k: int| 0 <= k < q.len() && q[k] == st
}

/// Returns a LightPropagationQueue for all of the light emitting blocks in the block array
pub fn get_initial_emitted_light_queue(
    blocks: &[BlockId],
    surrounding_sides_light: &[Option<ChunkSideLight>],
) -> (r: VecDeque<LightPropagationStep<EmittedLight>>)
    requires
        blocks@.len() == 32768,
        forall|i: int| 0 <= i < 32768 ==> (#[trigger] blocks@[i]).0 < 5,
        surrounding_sides_light@.len() <= 6,
        forall|s: int|
            0 <= s < surrounding_sides_light@.len() ==> ((#[trigger] surrounding_sides_light@[s]) matches Some(
                side,
            ) ==> side.wf()),
    ensures
        initial_emitted_queue(blocks@, surrounding_sides_light@, r@),
        r@ == emitter_steps(blocks@, 32768) + sides_steps(blocks@, surrounding_sides_light@, surrounding_sides_light@.len()),
{
    // blocks within chunk
    let mut light_queue: VecDeque<LightPropagationStep<EmittedLight>> = VecDeque::new();
    let mut block_index: usize = 0;
    while block_index < CHUNK_SIZE_CUBED
        invariant
            blocks@.len() == 32768,
            forall|i: int| 0 <= i < 32768 ==> (#[trigger] blocks@[i]).0 < 5,
            block_index <= 32768,
            queue_wf(light_queue@),
            forall|k: int| 0 <= k < light_queue@.len() ==> !(#[trigger] light_queue@[k]).is_repair_step,
            forall|k: int|
                0 <= k < light_queue@.len() ==> initial_emitted_step(
                    blocks@,
                    surrounding_sides_light@,
                    #[trigger] light_queue@[k],
                ),
            forall|i: int|
                0 <= i < block_index && emits_spec((#[trigger] blocks@[i]).0 as int) ==> exists|k: int|
                    0 <= k < light_queue@.len() && light_queue@[k].position.index() == i
                        && light_queue@[k].light@ == emission_light_spec(blocks@[i].0 as int),
            light_queue@ == emitter_steps(blocks@, block_index as nat),
        decreases 32768 - block_index,
    {
        let ghost before = light_queue@;
        let block = get_block(blocks[block_index]);

        if !block.emission.is_zero() {
            let position = LocalBlockPosition::from_array_index(block_index);
            let light = EmittedLight::from_ivec3(block.emission);
            proof {
                assert(pack4(15, 10, 5, 0) < 0x1000) by (bit_vector);
            }
            proof {
                assert(position == index_position(block_index as int));
                assert(light == EmittedLight(emission_light_spec(blocks@[block_index as int].0 as int)));
            }
            light_queue.push_back(LightPropagationStep { position, light, is_repair_step: false });
        }
        proof {
            assert forall|i: int|
                0 <= i < block_index + 1 && emits_spec((#[trigger] blocks@[i]).0 as int) implies exists|k: int|
                0 <= k < light_queue@.len() && light_queue@[k].position.index() == i
                    && light_queue@[k].light@ == emission_light_spec(blocks@[i].0 as int) by {
                if i < block_index {
                    let k = choose|k: int|
                        0 <= k < before.len() && before[k].position.index() == i
                            && before[k].light@ == emission_light_spec(blocks@[i].0 as int);
                    assert(light_queue@[k] == before[k]);
                } else {
                    assert(light_queue@[before.len() as int].position.index() == i);
                }
            }
        }
        block_index = block_index + 1;
    }

    // blocks in neighbouring chunks
    let ghost emitters = light_queue@;
    let mut side_index: usize = 0;
    while side_index < surrounding_sides_light.len()
        invariant
            blocks@.len() == 32768,
            forall|i: int| 0 <= i < 32768 ==> (#[trigger] blocks@[i]).0 < 5,
            surrounding_sides_light@.len() <= 6,
            forall|s: int|
                0 <= s < surrounding_sides_light@.len() ==> ((#[trigger] surrounding_sides_light@[s]) matches Some(
                    side,
                ) ==> side.wf()),
            side_index <= surrounding_sides_light@.len(),
            queue_wf(light_queue@),
            forall|k: int| 0 <= k < light_queue@.len() ==> !(#[trigger] light_queue@[k]).is_repair_step,
            forall|k: int|
                0 <= k < light_queue@.len() ==> initial_emitted_step(
                    blocks@,
                    surrounding_sides_light@,
                    #[trigger] light_queue@[k],
                ),
            light_queue@.len() >= emitters.len(),
            forall|k: int| 0 <= k < emitters.len() ==> #[trigger] light_queue@[k] == emitters[k],
            forall|i: int|
                0 <= i < 32768 && emits_spec((#[trigger] blocks@[i]).0 as int) ==> exists|k: int|
                    0 <= k < emitters.len() && emitters[k].position.index() == i
                        && emitters[k].light@ == emission_light_spec(blocks@[i].0 as int),
            forall|s: int, idx: int, st: LightPropagationStep<EmittedLight>|
                0 <= s < side_index && 0 <= idx < 1024 && #[trigger] side_step_ok(
                    blocks@,
                    surrounding_sides_light@[s],
                    s,
                    idx,
                    st,
                ) ==> exists|k: int| 0 <= k < light_queue@.len() && light_queue@[k] == st,
            light_queue@ == emitters + sides_steps(blocks@, surrounding_sides_light@, side_index as nat),
        decreases surrounding_sides_light@.len() - side_index,
    {
        let ghost queue_at_side = light_queue@;
        match &surrounding_sides_light[side_index] {
            Some(side) => {
                let mut index_in_side: usize = 0;
                while index_in_side < CHUNK_SIZE_SQUARED
                    invariant
                        blocks@.len() == 32768,
                        forall|i: int| 0 <= i < 32768 ==> (#[trigger] blocks@[i]).0 < 5,
                        side_index < surrounding_sides_light@.len(),
                        side_index < 6,
                        surrounding_sides_light@[side_index as int] == Some(*side),
                        side.wf(),
                        index_in_side <= 1024,
                        queue_wf(light_queue@),
                        forall|k: int| 0 <= k < light_queue@.len() ==> !(#[trigger] light_queue@[k]).is_repair_step,
                        forall|k: int|
                            0 <= k < light_queue@.len() ==> initial_emitted_step(
                                blocks@,
                                surrounding_sides_light@,
                                #[trigger] light_queue@[k],
                            ),
                        light_queue@.len() >= queue_at_side.len(),
                        forall|k: int| 0 <= k < queue_at_side.len() ==> #[trigger] light_queue@[k] == queue_at_side[k],
                        forall|idx: int, st: LightPropagationStep<EmittedLight>|
                            0 <= idx < index_in_side && #[trigger] side_step_ok(
                                blocks@,
                                surrounding_sides_light@[side_index as int],
                                side_index as int,
                                idx,
                                st,
                            ) ==> exists|k: int| 0 <= k < light_queue@.len() && light_queue@[k] == st,
                        light_queue@ == queue_at_side + side_steps(blocks@, *side, side_index as int, index_in_side as nat),
                    decreases 1024 - index_in_side,
                {
                    let ghost before = light_queue@;
                    let light = side.emitted[index_in_side];
                    let diminished = light.decrement_and_saturate();
                    proof {
                        lemma_side_index(index_in_side);
                        lemma_channels(light@, 0);
                    }
                    if diminished.0 != 0 {
                        let u = (index_in_side & (CHUNK_SIZE - 1)) as u32;
                        let v = (index_in_side >> CHUNK_SIZE_LOG2) as u32;

                        let position = side_position(side_index, u, v);
                        proof {
                            crate::terrain::position_types::lemma_array_index_roundtrip(position);
                        }
                        let block_id = blocks[position.get_array_index()];
                        let block = get_block(block_id);

                        if block.model.is_transparent_in_direction(FaceIndex(side_index)) {
                            let st = LightPropagationStep {
                                position,
                                light: diminished,
                                is_repair_step: false,
                            };
                            proof {
                                assert(side_step_ok(
                                    blocks@,
                                    surrounding_sides_light@[side_index as int],
                                    side_index as int,
                                    index_in_side as int,
                                    st,
                                ));
                            }
                            light_queue.push_back(st);
                        }
                    }
                    proof {
                        let n1 = (index_in_side + 1) as nat;
                        let idx = index_in_side as int;
                        let stx = LightPropagationStep {
                            position: side_position_spec(side_index as int, idx % 32, idx / 32),
                            light: EmittedLight(decrement_spec(side.emitted@[idx]@)),
                            is_repair_step: false,
                        };
                        if stx.light@ != 0 && !block_is_opaque_spec(blocks@[stx.position.index()].0 as int) {
                            assert(light_queue@ =~= queue_at_side + side_steps(blocks@, *side, side_index as int, n1));
                        } else {
                            assert(light_queue@ =~= queue_at_side + side_steps(blocks@, *side, side_index as int, n1));
                        }
                    }
                    proof {
                        assert forall|idx: int, st: LightPropagationStep<EmittedLight>|
                            0 <= idx < index_in_side + 1 && #[trigger] side_step_ok(
                                blocks@,
                                surrounding_sides_light@[side_index as int],
                                side_index as int,
                                idx,
                                st,
                            ) implies exists|k: int| 0 <= k < light_queue@.len() && light_queue@[k] == st by {
                            if idx < index_in_side {
                                let k = choose|k: int| 0 <= k < before.len() && before[k] == st;
                                assert(light_queue@[k] == before[k]);
                            } else {
                                assert(light_queue@[before.len() as int] == st);
                            }
                        }
                    }
                    index_in_side = index_in_side + 1;
                }
            },
            None => {},
        }
        proof {
            let n1 = (side_index + 1) as nat;
            match surrounding_sides_light@[side_index as int] {
                Some(side) => {
                    assert(light_queue@ =~= emitters + sides_steps(blocks@, surrounding_sides_light@, n1));
                },
                None => {
                    assert(light_queue@ =~= emitters + sides_steps(blocks@, surrounding_sides_light@, n1));
                },
            }
            assert forall|s: int, idx: int, st: LightPropagationStep<EmittedLight>|
                0 <= s < side_index + 1 && 0 <= idx < 1024 && #[trigger] side_step_ok(
                    blocks@,
                    surrounding_sides_light@[s],
                    s,
                    idx,
                    st,
                ) implies exists|k: int| 0 <= k < light_queue@.len() && light_queue@[k] == st by {
                if s < side_index {
                    let k = choose|k: int| 0 <= k < queue_at_side.len() && queue_at_side[k] == st;
                    assert(light_queue@[k] == queue_at_side[k]);
                }
            }
        }
        side_index = side_index + 1;
    }
    proof {
        assert forall|i: int|
            0 <= i < 32768 && emits_spec((#[trigger] blocks@[i]).0 as int) implies exists|k: int|
            0 <= k < light_queue@.len() && light_queue@[k].position.index() == i
                && light_queue@[k].light@ == emission_light_spec(blocks@[i].0 as int) by {
            let k = choose|k: int|
                0 <= k < emitters.len() && emitters[k].position.index() == i
                    && emitters[k].light@ == emission_light_spec(blocks@[i].0 as int);
            assert(light_queue@[k] == emitters[k]);
        }
    }
    light_queue
}

} // verus!
