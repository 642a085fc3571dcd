//! Skylight: one 4-bit light level per block, coming from above.

use crate::terrain::block::{block_is_opaque_spec, get_block, BlockId};
use crate::terrain::chunk::side::{side_position, side_position_spec, ChunkSideLight};
use crate::terrain::chunk::{CHUNK_SIZE, CHUNK_SIZE_LOG2, CHUNK_SIZE_SQUARED};
use crate::terrain::lighting::emitted_light::lemma_side_index;
use crate::terrain::chunk::storage::ChunkBlockStorage;
use crate::terrain::lighting::emitted_light::transparent_at;
use crate::terrain::lighting::emitted_light::abs_int;
use crate::terrain::lighting::{
    lemma_neighbour_valid, neighbour_spec, wrapped_neighbour_spec, LightPropagationStep,
    LightStore, LightUpdate,
};
use crate::terrain::position_types::LocalBlockPosition;
use crate::util::face::{face_normal, FaceIndex};
use crate::util::vector::UVec3;
use std::collections::VecDeque;
use vstd::prelude::*;

verus! {

/// Skylight value for one block
#[derive(Clone, Copy, Debug, PartialEq, Eq, PartialOrd, Ord, Structural)]
pub struct Skylight(pub u8);

impl Skylight {
    /// The largest skylight level.
    pub const MAX_VALUE: u8 = 15;

    /// No skylight (`Skylight::ZERO`).
    pub fn zero() -> (r: Skylight)
        ensures
            r.0 == 0,
    {
        Skylight(0)
    }

    /// One level less, stopping at zero.
    pub fn decrement_and_saturate(self) -> (r: Self)
        ensures
            r.0 == (if self.0 == 0 { 0 } else { self.0 - 1 }),
    {
        if self.0 == 0 {
            Self(0)
        } else {
            Self(self.0 - 1)
        }
    }
}

} // verus!

verus! {

/// The larger of two skylight levels.
pub open spec fn sky_max(a: u8, b: u8) -> u8 {
    if a < b { b } else { a }
}

/// The skylight values of a store, by array index.
pub open spec fn sky_seq<Store: LightStore<Skylight>>(store: Store) -> Seq<u8> {
    Seq::new(32768, |i: int| store.light_at(i).0)
}

/// Skylight a neighbour across face `f` must reach for level `pv` to have propagated:
/// the same level downwards, one less in every other direction.
pub open spec fn sky_need(pv: u8, f: int) -> int {
    if f == 4 { pv as int } else { pv as int - 1 }
}

/// `e` is a skylight update for the block next to `p` across face `f` in the
/// neighbouring chunk, bringing at least `need`.
pub open spec fn sky_out_covers(e: (FaceIndex, LightUpdate), p: LocalBlockPosition, f: int, need: int) -> bool {
    &&& e.0 == FaceIndex(f as usize)
    &&& match e.1 {
        LightUpdate::Skylight(s) => s.position == wrapped_neighbour_spec(p, f) && !s.is_repair_step
            && s.light.0 >= need,
        _ => false,
    }
}

/// Skylight level `pv` at `p` has reached the neighbour across face `f`: the
/// neighbour is opaque, already holds what it should, or a queued step will bring
/// it; or, across the chunk border, nothing is due or an update carries it.
pub open spec fn sky_cell_ok(
    light: Seq<u8>,
    queue: Seq<LightPropagationStep<Skylight>>,
    out: Seq<(FaceIndex, LightUpdate)>,
    blocks: ChunkBlockStorage,
    pv: u8,
    p: LocalBlockPosition,
    f: int,
) -> bool {
    let need = sky_need(pv, f);
    match neighbour_spec(p, f) {
        Some(q) => !transparent_at(blocks, q) || light[q.index()] >= need || exists|k: int|
            0 <= k < queue.len() && queue[k].position == q && queue[k].light.0 >= need,
        None => need <= 0 || exists|k: int| 0 <= k < out.len() && sky_out_covers(out[k], p, f, need),
    }
}

/// Every value written so far is propagated across every face.
pub open spec fn sky_all_cells_ok(
    light: Seq<u8>,
    queue: Seq<LightPropagationStep<Skylight>>,
    out: Seq<(FaceIndex, LightUpdate)>,
    blocks: ChunkBlockStorage,
    pmax: Seq<u8>,
) -> bool {
    forall|p: LocalBlockPosition, f: int|
        p.is_valid() && 0 <= f < 6 ==> #[trigger] sky_cell_ok(light, queue, out, blocks, pmax[p.index()], p, f)
}

/// Every stored level is the larger of its level before propagation and the largest
/// level written there.
pub open spec fn sky_light_inv(light: Seq<u8>, old_light: Seq<u8>, pmax: Seq<u8>) -> bool {
    &&& light.len() == 32768
    &&& old_light.len() == 32768
    &&& pmax.len() == 32768
    &&& forall|j: int|
        0 <= j < 32768 ==> #[trigger] light[j] == sky_max(old_light[j], pmax[j]) && pmax[j] < 16
            && old_light[j] < 16
}

/// The first `n` initial steps have arrived, and the repair steps among them were written.
pub open spec fn sky_absorbed(light: Seq<u8>, pmax: Seq<u8>, q0: Seq<LightPropagationStep<Skylight>>, n: int) -> bool {
    forall|k: int|
        0 <= k < n ==> light[(#[trigger] q0[k]).position.index()] >= q0[k].light.0 && (
        q0[k].is_repair_step ==> pmax[q0[k].position.index()] >= q0[k].light.0)
}

/// Every step in the queue is at a valid position with a storable level.
pub open spec fn sky_queue_wf(queue: Seq<LightPropagationStep<Skylight>>) -> bool {
    forall|k: int|
        0 <= k < queue.len() ==> (#[trigger] queue[k]).position.is_valid() && queue[k].light.0 < 16
}

/// A well-formed update for a neighbouring chunk produced by skylight propagation.
pub open spec fn sky_out_wf(e: (FaceIndex, LightUpdate)) -> bool {
    &&& e.0.is_valid()
    &&& match e.1 {
        LightUpdate::Skylight(s) => s.position.is_valid() && s.light.0 < 16 && !s.is_repair_step,
        _ => false,
    }
}

/// Total room for skylight to grow in the first `n` blocks.
pub open spec fn sky_phi(s: Seq<u8>, n: int) -> int
    decreases n,
{
    if n <= 0 { 0 } else { sky_phi(s, n - 1) + (15 - s[n - 1]) }
}

/// Replacing one level changes the total room by the difference.
pub proof fn lemma_sky_phi(s: Seq<u8>, n: int, k: int, v: u8)
    requires
        0 <= n <= s.len(),
        0 <= k < s.len(),
        forall|j: int| 0 <= j < s.len() ==> s[j] < 16,
    ensures
        sky_phi(s, n) >= 0,
        sky_phi(s.update(k, v), n) == if k < n { sky_phi(s, n) - (15 - s[k]) + (15 - v) } else {
            sky_phi(s, n)
        },
    decreases n,
{
    if n > 0 {
        lemma_sky_phi(s, n - 1, k, v);
    }
}

/// A propagated level stays propagated when light grows, updates are appended, a step
/// is appended to the queue, a step whose light has arrived leaves the front of the
/// queue, or the level shrinks.
pub proof fn lemma_sky_cell_transfer(
    l1: Seq<u8>,
    q1: Seq<LightPropagationStep<Skylight>>,
    o1: Seq<(FaceIndex, LightUpdate)>,
    l2: Seq<u8>,
    q2: Seq<LightPropagationStep<Skylight>>,
    o2: Seq<(FaceIndex, LightUpdate)>,
    blocks: ChunkBlockStorage,
    pv1: u8,
    pv2: u8,
    p: LocalBlockPosition,
    f: int,
)
    requires
        sky_cell_ok(l1, q1, o1, blocks, pv1, p, f),
        p.is_valid(),
        0 <= f < 6,
        l1.len() == 32768,
        l2.len() == 32768,
        forall|j: int| 0 <= j < 32768 ==> l2[j] >= l1[j],
        o1.len() <= o2.len(),
        forall|k: int| 0 <= k < o1.len() ==> o2[k] == o1[k],
        pv2 <= pv1 || sky_need(pv2, f) <= 0,
        (q2.len() == q1.len() + 1 && forall|k: int| 0 <= k < q1.len() ==> q2[k] == q1[k]) || (
        q1.len() == q2.len() + 1 && forall|k: int| 0 <= k < q2.len() ==> q2[k] == q1[k + 1]) || q1
            == q2,
        q1.len() == q2.len() + 1 ==> q1[0].position.is_valid() && l2[q1[0].position.index()]
            >= q1[0].light.0,
    ensures
        sky_cell_ok(l2, q2, o2, blocks, pv2, p, f),
{
    lemma_neighbour_valid(p, f);
    match neighbour_spec(p, f) {
        Some(q) => {
            if sky_need(pv2, f) <= 0 {
            } else if transparent_at(blocks, q) && l1[q.index()] < sky_need(pv1, f) {
                let k = choose|k: int|
                    0 <= k < q1.len() && q1[k].position == q && q1[k].light.0 >= sky_need(pv1, f);
                if q2.len() == q1.len() + 1 && forall|k: int| 0 <= k < q1.len() ==> q2[k] == q1[k] {
                    assert(q2[k] == q1[k]);
                } else if q1.len() == q2.len() + 1 && forall|k: int|
                    0 <= k < q2.len() ==> q2[k] == q1[k + 1] {
                    if k > 0 {
                        assert(q2[k - 1] == q1[k]);
                    }
                }
            }
        },
        None => {
            if sky_need(pv2, f) > 0 {
                let k = choose|k: int| 0 <= k < o1.len() && sky_out_covers(o1[k], p, f, sky_need(pv1, f));
                assert(o2[k] == o1[k]);
            }
        },
    }
}

/// Handling one face of a step that raised the level at `cur` from `pold` to `pnew`
/// makes the raised level propagated across that face.
proof fn lemma_sky_face_step(
    light: Seq<u8>,
    q_old: Seq<LightPropagationStep<Skylight>>,
    q_new: Seq<LightPropagationStep<Skylight>>,
    o_old: Seq<(FaceIndex, LightUpdate)>,
    o_new: Seq<(FaceIndex, LightUpdate)>,
    blocks: ChunkBlockStorage,
    pold: u8,
    s: u8,
    dim: u8,
    cur: LocalBlockPosition,
    fi: int,
)
    requires
        sky_cell_ok(light, q_old, o_old, blocks, pold, cur, fi),
        cur.is_valid(),
        0 <= fi < 6,
        light.len() == 32768,
        dim as int == if fi == 4 { s as int } else if s == 0 { 0 } else { s - 1 },
        match neighbour_spec(cur, fi) {
            Some(q) => o_new == o_old && ((q_new == q_old.push(
                LightPropagationStep { position: q, light: Skylight(dim), is_repair_step: false },
            )) || (q_new == q_old && (dim == 0 || !transparent_at(blocks, q) || light[q.index()]
                >= dim))),
            None => q_new == q_old && ((dim == 0 && o_new == o_old) || o_new == o_old.push(
                (
                    FaceIndex(fi as usize),
                    LightUpdate::Skylight(
                        LightPropagationStep {
                            position: wrapped_neighbour_spec(cur, fi),
                            light: Skylight(dim),
                            is_repair_step: false,
                        },
                    ),
                ),
            )),
        },
    ensures
        sky_cell_ok(light, q_new, o_new, blocks, sky_max(pold, s), cur, fi),
{
    lemma_neighbour_valid(cur, fi);
    match neighbour_spec(cur, fi) {
        Some(q) => {
            if sky_max(pold, s) == pold {
                if q_new != q_old {
                    if transparent_at(blocks, q) && light[q.index()] < sky_need(pold, fi) {
                        let k = choose|k: int|
                            0 <= k < q_old.len() && q_old[k].position == q && q_old[k].light.0
                                >= sky_need(pold, fi);
                        assert(q_new[k] == q_old[k]);
                    }
                }
            } else {
                if q_new != q_old {
                    assert(q_new[q_old.len() as int].position == q);
                }
            }
        },
        None => {
            if sky_max(pold, s) == pold {
                if sky_need(pold, fi) > 0 {
                    let k = choose|k: int| 0 <= k < o_old.len() && sky_out_covers(o_old[k], cur, fi, sky_need(pold, fi));
                    assert(o_new[k] == o_old[k]);
                }
            } else if o_new != o_old {
                assert(sky_out_covers(o_new[o_old.len() as int], cur, fi, sky_need(s, fi)));
            }
        },
    }
}

/// The block next to `p` across face `f`, in the same chunk, gives it at least level
/// `v`: the block above passes its level down whole, the others one less.
pub open spec fn sky_lit_from(light: Seq<u8>, p: LocalBlockPosition, f: int, v: u8) -> bool {
    match neighbour_spec(p, f) {
        Some(q) => if f == 1 {
            light[q.index()] >= v
        } else {
            light[q.index()] >= v + 1
        },
        None => false,
    }
}

/// Level `v` at `p` is accounted for: it is no more than the level there before
/// propagation, or than a step queued for `p` at the start, or the block at `p` lets
/// light in and a neighbour gives it that much.
pub open spec fn sky_supported(
    light: Seq<u8>,
    old_light: Seq<u8>,
    q0: Seq<LightPropagationStep<Skylight>>,
    blocks: ChunkBlockStorage,
    p: LocalBlockPosition,
    v: u8,
) -> bool {
    ||| v <= old_light[p.index()]
    ||| exists|k: int| 0 <= k < q0.len() && (#[trigger] q0[k]).position == p && q0[k].light.0 >= v
    ||| transparent_at(blocks, p) && exists|f: int| 0 <= f < 6 && #[trigger] sky_lit_from(light, p, f, v)
}

/// Every skylight level, and every queued step, is accounted for.
#[verifier::opaque]
pub open spec fn sky_support_inv(
    light: Seq<u8>,
    old_light: Seq<u8>,
    q0: Seq<LightPropagationStep<Skylight>>,
    blocks: ChunkBlockStorage,
    queue: Seq<LightPropagationStep<Skylight>>,
) -> bool {
    &&& forall|p: LocalBlockPosition| p.is_valid() ==> #[trigger] sky_supported(light, old_light, q0, blocks, p, light[p.index()])
    &&& forall|k: int|
        0 <= k < queue.len() ==> #[trigger] sky_supported(light, old_light, q0, blocks, queue[k].position, queue[k].light.0)
}

/// Support survives a smaller level and light growing.
proof fn lemma_sky_supported_transfer(
    l1: Seq<u8>,
    l2: Seq<u8>,
    old_light: Seq<u8>,
    q0: Seq<LightPropagationStep<Skylight>>,
    blocks: ChunkBlockStorage,
    p: LocalBlockPosition,
    v1: u8,
    v2: u8,
)
    requires
        sky_supported(l1, old_light, q0, blocks, p, v1),
        p.is_valid(),
        l1.len() == 32768,
        l2.len() == 32768,
        forall|i: int| 0 <= i < 32768 ==> #[trigger] l2[i] >= l1[i],
        v2 <= v1,
    ensures
        sky_supported(l2, old_light, q0, blocks, p, v2),
{
    if v1 <= old_light[p.index()] {
    } else if exists|k: int| 0 <= k < q0.len() && (#[trigger] q0[k]).position == p && q0[k].light.0 >= v1 {
        let k = choose|k: int| 0 <= k < q0.len() && (#[trigger] q0[k]).position == p && q0[k].light.0 >= v1;
        assert(q0[k].position == p && q0[k].light.0 >= v2);
    } else {
        let f = choose|f: int| 0 <= f < 6 && #[trigger] sky_lit_from(l1, p, f, v1);
        lemma_neighbour_valid(p, f);
        let q = neighbour_spec(p, f)->0;
        assert(l2[q.index()] >= l1[q.index()]);
        assert(sky_lit_from(l2, p, f, v2));
    }
}

/// Before propagation, the light is the old light and the queue the initial one.
proof fn lemma_sky_support_init(
    light: Seq<u8>,
    q0: Seq<LightPropagationStep<Skylight>>,
    blocks: ChunkBlockStorage,
)
    ensures
        sky_support_inv(light, light, q0, blocks, q0),
{
    reveal(sky_support_inv);
    assert forall|k: int| 0 <= k < q0.len() implies #[trigger] sky_supported(
        light,
        light,
        q0,
        blocks,
        q0[k].position,
        q0[k].light.0,
    ) by {
        assert(q0[k].position == q0[k].position);
    }
}

/// Taking the first step off the queue keeps everything accounted for.
proof fn lemma_sky_support_pop(
    light: Seq<u8>,
    old_light: Seq<u8>,
    q0: Seq<LightPropagationStep<Skylight>>,
    blocks: ChunkBlockStorage,
    qb: Seq<LightPropagationStep<Skylight>>,
)
    requires
        sky_support_inv(light, old_light, q0, blocks, qb),
        qb.len() > 0,
    ensures
        sky_support_inv(light, old_light, q0, blocks, qb.subrange(1, qb.len() as int)),
{
    reveal(sky_support_inv);
    let qa = qb.subrange(1, qb.len() as int);
    assert forall|k: int| 0 <= k < qa.len() implies #[trigger] sky_supported(
        light,
        old_light,
        q0,
        blocks,
        qa[k].position,
        qa[k].light.0,
    ) by {
        assert(qa[k] == qb[k + 1]);
        assert(sky_supported(light, old_light, q0, blocks, qb[k + 1].position, qb[k + 1].light.0));
    }
}

/// Writing the first step of the queue at its block, keeping the larger level, and
/// taking it off the queue keeps everything accounted for.
proof fn lemma_sky_support_write(
    lb: Seq<u8>,
    ln: Seq<u8>,
    old_light: Seq<u8>,
    q0: Seq<LightPropagationStep<Skylight>>,
    blocks: ChunkBlockStorage,
    qb: Seq<LightPropagationStep<Skylight>>,
)
    requires
        sky_support_inv(lb, old_light, q0, blocks, qb),
        qb.len() > 0,
        sky_queue_wf(qb),
        lb.len() == 32768,
        ln == lb.update(qb[0].position.index(), sky_max(lb[qb[0].position.index()], qb[0].light.0)),
    ensures
        sky_support_inv(ln, old_light, q0, blocks, qb.subrange(1, qb.len() as int)),
{
    reveal(sky_support_inv);
    let step = qb[0];
    let idx = step.position.index();
    assert(step.position.is_valid());
    crate::terrain::position_types::lemma_array_index_roundtrip(step.position);
    assert forall|i: int| 0 <= i < 32768 implies #[trigger] ln[i] >= lb[i] by {
        if i == idx {
            assert(ln[i] == sky_max(lb[idx], step.light.0));
        }
    }
    assert forall|p: LocalBlockPosition| p.is_valid() implies #[trigger] sky_supported(ln, old_light, q0, blocks, p, ln[p.index()]) by {
        crate::terrain::position_types::lemma_array_index_roundtrip(p);
        if p.index() == idx {
            crate::terrain::position_types::lemma_index_injective(p, step.position);
            if lb[idx] < step.light.0 {
                assert(sky_supported(lb, old_light, q0, blocks, qb[0].position, qb[0].light.0));
                lemma_sky_supported_transfer(lb, ln, old_light, q0, blocks, p, step.light.0, ln[idx]);
            } else {
                assert(sky_supported(lb, old_light, q0, blocks, p, lb[p.index()]));
                lemma_sky_supported_transfer(lb, ln, old_light, q0, blocks, p, lb[idx], ln[idx]);
            }
        } else {
            assert(sky_supported(lb, old_light, q0, blocks, p, lb[p.index()]));
            lemma_sky_supported_transfer(lb, ln, old_light, q0, blocks, p, lb[p.index()], ln[p.index()]);
        }
    }
    let qa = qb.subrange(1, qb.len() as int);
    assert forall|k: int| 0 <= k < qa.len() implies #[trigger] sky_supported(ln, old_light, q0, blocks, qa[k].position, qa[k].light.0) by {
        assert(qa[k] == qb[k + 1]);
        assert(qb[k + 1].position.is_valid());
        assert(sky_supported(lb, old_light, q0, blocks, qb[k + 1].position, qb[k + 1].light.0));
        lemma_sky_supported_transfer(lb, ln, old_light, q0, blocks, qa[k].position, qa[k].light.0, qa[k].light.0);
    }
}

/// Queueing for a transparent neighbour of `position` across face `f` the level `src`
/// there, whole when going down and one less otherwise, keeps everything accounted for
/// when the level at `position` is at least `src`.
proof fn lemma_sky_support_push(
    light: Seq<u8>,
    old_light: Seq<u8>,
    q0: Seq<LightPropagationStep<Skylight>>,
    blocks: ChunkBlockStorage,
    queue: Seq<LightPropagationStep<Skylight>>,
    position: LocalBlockPosition,
    f: int,
    src: u8,
    dim: u8,
)
    requires
        sky_support_inv(light, old_light, q0, blocks, queue),
        position.is_valid(),
        0 <= f < 6,
        neighbour_spec(position, f) is Some,
        transparent_at(blocks, neighbour_spec(position, f)->0),
        light.len() == 32768,
        light[position.index()] >= src,
        dim == if f == 4 {
            src as int
        } else if src == 0 {
            0
        } else {
            src - 1
        },
    ensures
        sky_support_inv(
            light,
            old_light,
            q0,
            blocks,
            queue.push(LightPropagationStep { position: neighbour_spec(position, f)->0, light: Skylight(dim), is_repair_step: false }),
        ),
{
    reveal(sky_support_inv);
    let q = neighbour_spec(position, f)->0;
    let queue1 = queue.push(LightPropagationStep { position: q, light: Skylight(dim), is_repair_step: false });
    crate::terrain::lighting::lemma_neighbour_back(position, f);
    assert forall|k: int| 0 <= k < queue1.len() implies #[trigger] sky_supported(
        light,
        old_light,
        q0,
        blocks,
        queue1[k].position,
        queue1[k].light.0,
    ) by {
        if k < queue.len() {
            assert(queue1[k] == queue[k]);
        } else {
            assert(queue1[k].position == q && queue1[k].light.0 == dim);
            if dim > 0 {
                assert(sky_lit_from(light, q, (f + 3) % 6, dim));
            }
        }
    }
}

/// The levels skylight loses on its way from block `a` to block `p`: one per block
/// across or up, none going down.
pub open spec fn sky_cost(a: LocalBlockPosition, p: LocalBlockPosition) -> int {
    abs_int(p.0.x - a.0.x) + abs_int(p.0.z - a.0.z) + if p.0.y > a.0.y {
        p.0.y - a.0.y
    } else {
        0
    }
}

/// Level `v` at `p` is no more than the level of one of the initial steps `q0`, less
/// what skylight loses on the way from it to `p`.
pub open spec fn sky_within_reach(q0: Seq<LightPropagationStep<Skylight>>, p: LocalBlockPosition, v: u8) -> bool {
    ||| v == 0
    ||| exists|k: int| 0 <= k < q0.len() && (#[trigger] q0[k]).light.0 - sky_cost(q0[k].position, p) >= v
}

/// The level sent across face `f` from a block holding level `s`: whole going down, one
/// less otherwise.
pub open spec fn sky_dim(f: int, s: u8) -> u8 {
    if f == 4 {
        s
    } else if s == 0 {
        0
    } else {
        (s - 1) as u8
    }
}

/// Update `e` goes across face `f` of the border block `p`, beyond which the chunk has no
/// block: level `s` of a step written at `p`, as it arrives across that face, for the
/// block of the neighbouring chunk touching `p`, when any light arrives. The level `s`
/// is no more than `p` holds and within reach of the initial steps `q0`.
pub open spec fn sky_sent(
    light: Seq<u8>,
    q0: Seq<LightPropagationStep<Skylight>>,
    e: (FaceIndex, LightUpdate),
    p: LocalBlockPosition,
    f: int,
    s: u8,
) -> bool {
    &&& p.is_valid()
    &&& 0 <= f < 6
    &&& neighbour_spec(p, f) is None
    &&& sky_dim(f, s) != 0
    &&& e == (
        FaceIndex(f as usize),
        LightUpdate::Skylight(
            LightPropagationStep { position: wrapped_neighbour_spec(p, f), light: Skylight(sky_dim(f, s)), is_repair_step: false },
        ),
    )
    &&& s <= light[p.index()]
    &&& sky_within_reach(q0, p, s)
}

/// Update `e` is one that skylight propagation sends to a neighbouring chunk.
pub open spec fn sky_out_ok(light: Seq<u8>, q0: Seq<LightPropagationStep<Skylight>>, e: (FaceIndex, LightUpdate)) -> bool {
    exists|p: LocalBlockPosition, f: int, s: u8| #[trigger] sky_sent(light, q0, e, p, f, s)
}

/// Every level raised above the old one, and every queued step, is within reach of the
/// initial steps; the updates from index `from` on are ones propagation sends.
#[verifier::opaque]
pub open spec fn sky_reach_inv(
    light: Seq<u8>,
    old_light: Seq<u8>,
    q0: Seq<LightPropagationStep<Skylight>>,
    queue: Seq<LightPropagationStep<Skylight>>,
    out: Seq<(FaceIndex, LightUpdate)>,
    from: int,
) -> bool {
    &&& forall|p: LocalBlockPosition|
        p.is_valid() ==> light[p.index()] <= old_light[p.index()] || #[trigger] sky_within_reach(q0, p, light[p.index()])
    &&& forall|k: int| 0 <= k < queue.len() ==> #[trigger] sky_within_reach(q0, queue[k].position, queue[k].light.0)
    &&& 0 <= from <= out.len()
    &&& forall|k: int| from <= k < out.len() ==> #[trigger] sky_out_ok(light, q0, out[k])
}

/// Before propagation every step is within reach of itself.
proof fn lemma_sky_reach_init(light: Seq<u8>, q0: Seq<LightPropagationStep<Skylight>>, out: Seq<(FaceIndex, LightUpdate)>)
    ensures
        sky_reach_inv(light, light, q0, q0, out, out.len() as int),
{
    reveal(sky_reach_inv);
    assert forall|k: int| 0 <= k < q0.len() implies #[trigger] sky_within_reach(q0, q0[k].position, q0[k].light.0) by {
        assert(sky_cost(q0[k].position, q0[k].position) == 0);
    }
}

/// Taking the first step off the queue: it is within reach, and so is what is left.
proof fn lemma_sky_reach_pop(
    light: Seq<u8>,
    old_light: Seq<u8>,
    q0: Seq<LightPropagationStep<Skylight>>,
    qb: Seq<LightPropagationStep<Skylight>>,
    out: Seq<(FaceIndex, LightUpdate)>,
    from: int,
)
    requires
        sky_reach_inv(light, old_light, q0, qb, out, from),
        qb.len() > 0,
    ensures
        sky_reach_inv(light, old_light, q0, qb.subrange(1, qb.len() as int), out, from),
        sky_within_reach(q0, qb[0].position, qb[0].light.0),
{
    reveal(sky_reach_inv);
    let qa = qb.subrange(1, qb.len() as int);
    assert forall|k: int| 0 <= k < qa.len() implies #[trigger] sky_within_reach(q0, qa[k].position, qa[k].light.0) by {
        assert(qa[k] == qb[k + 1]);
        assert(sky_within_reach(q0, qb[k + 1].position, qb[k + 1].light.0));
    }
    assert(sky_within_reach(q0, qb[0].position, qb[0].light.0));
}

/// An update sent stays one propagation sends as light grows.
proof fn lemma_sky_sent_grow(
    lb: Seq<u8>,
    ln: Seq<u8>,
    q0: Seq<LightPropagationStep<Skylight>>,
    e: (FaceIndex, LightUpdate),
    p: LocalBlockPosition,
    f: int,
    sv: u8,
)
    requires
        sky_sent(lb, q0, e, p, f, sv),
        lb.len() == 32768,
        ln.len() == 32768,
        forall|i: int| 0 <= i < 32768 ==> #[trigger] ln[i] >= lb[i],
    ensures
        sky_sent(ln, q0, e, p, f, sv),
{
    crate::terrain::position_types::lemma_array_index_roundtrip(p);
    assert(ln[p.index()] >= lb[p.index()]);
}

/// Writing the first step of the queue at its block, keeping the larger level, keeps
/// every raised level within reach and the updates sent right.
proof fn lemma_sky_reach_write(
    lb: Seq<u8>,
    ln: Seq<u8>,
    old_light: Seq<u8>,
    q0: Seq<LightPropagationStep<Skylight>>,
    qb: Seq<LightPropagationStep<Skylight>>,
    out: Seq<(FaceIndex, LightUpdate)>,
    from: int,
)
    requires
        sky_reach_inv(lb, old_light, q0, qb, out, from),
        qb.len() > 0,
        sky_queue_wf(qb),
        lb.len() == 32768,
        ln == lb.update(qb[0].position.index(), sky_max(lb[qb[0].position.index()], qb[0].light.0)),
    ensures
        sky_reach_inv(ln, old_light, q0, qb.subrange(1, qb.len() as int), out, from),
{
    lemma_sky_reach_pop(lb, old_light, q0, qb, out, from);
    reveal(sky_reach_inv);
    let step = qb[0];
    let idx = step.position.index();
    assert(step.position.is_valid());
    crate::terrain::position_types::lemma_array_index_roundtrip(step.position);
    assert forall|i: int| 0 <= i < 32768 implies #[trigger] ln[i] >= lb[i] by {
        if i == idx {
            assert(ln[i] == sky_max(lb[idx], step.light.0));
        }
    }
    assert forall|p: LocalBlockPosition| p.is_valid() implies ln[p.index()] <= old_light[p.index()] || #[trigger] sky_within_reach(
        q0,
        p,
        ln[p.index()],
    ) by {
        crate::terrain::position_types::lemma_array_index_roundtrip(p);
        if p.index() == idx {
            crate::terrain::position_types::lemma_index_injective(p, step.position);
            assert(ln[idx] == sky_max(lb[idx], step.light.0));
            if lb[idx] < step.light.0 {
                assert(sky_within_reach(q0, step.position, step.light.0));
            } else if !(ln[p.index()] <= old_light[p.index()]) {
                assert(sky_within_reach(q0, p, lb[p.index()]));
            }
        } else {
            assert(ln[p.index()] == lb[p.index()]);
        }
    }
    assert forall|k: int| from <= k < out.len() implies #[trigger] sky_out_ok(ln, q0, out[k]) by {
        assert(sky_out_ok(lb, q0, out[k]));
        let (p, f, sv) = choose|p: LocalBlockPosition, f: int, sv: u8| #[trigger] sky_sent(lb, q0, out[k], p, f, sv);
        lemma_sky_sent_grow(lb, ln, q0, out[k], p, f, sv);
    }
}

/// Queueing for the neighbour of `position` across face `f` the level `src` there, as it
/// arrives across that face, keeps every queued step within reach.
proof fn lemma_sky_reach_push(
    light: Seq<u8>,
    old_light: Seq<u8>,
    q0: Seq<LightPropagationStep<Skylight>>,
    queue: Seq<LightPropagationStep<Skylight>>,
    out: Seq<(FaceIndex, LightUpdate)>,
    from: int,
    position: LocalBlockPosition,
    f: int,
    src: u8,
)
    requires
        sky_reach_inv(light, old_light, q0, queue, out, from),
        position.is_valid(),
        0 <= f < 6,
        neighbour_spec(position, f) is Some,
        sky_within_reach(q0, position, src),
    ensures
        sky_reach_inv(
            light,
            old_light,
            q0,
            queue.push(
                LightPropagationStep { position: neighbour_spec(position, f)->0, light: Skylight(sky_dim(f, src)), is_repair_step: false },
            ),
            out,
            from,
        ),
{
    reveal(sky_reach_inv);
    let q = neighbour_spec(position, f)->0;
    let dim = sky_dim(f, src);
    let queue1 = queue.push(LightPropagationStep { position: q, light: Skylight(dim), is_repair_step: false });
    assert forall|k: int| 0 <= k < queue1.len() implies #[trigger] sky_within_reach(q0, queue1[k].position, queue1[k].light.0) by {
        if k < queue.len() {
            assert(queue1[k] == queue[k]);
        } else {
            assert(queue1[k].position == q && queue1[k].light.0 == dim);
            if dim != 0 {
                let j = choose|j: int| 0 <= j < q0.len() && (#[trigger] q0[j]).light.0 - sky_cost(q0[j].position, position) >= src;
                if f == 4 {
                    assert(sky_cost(q0[j].position, q) <= sky_cost(q0[j].position, position));
                } else {
                    assert(sky_cost(q0[j].position, q) <= sky_cost(q0[j].position, position) + 1);
                }
                assert(q0[j].light.0 - sky_cost(q0[j].position, q) >= dim);
            }
        }
    }
}

/// Sending one more update that propagation sends keeps the list right.
proof fn lemma_sky_outs_push(
    light: Seq<u8>,
    old_light: Seq<u8>,
    q0: Seq<LightPropagationStep<Skylight>>,
    queue: Seq<LightPropagationStep<Skylight>>,
    out: Seq<(FaceIndex, LightUpdate)>,
    from: int,
    e: (FaceIndex, LightUpdate),
    p: LocalBlockPosition,
    f: int,
    sv: u8,
)
    requires
        sky_reach_inv(light, old_light, q0, queue, out, from),
        sky_sent(light, q0, e, p, f, sv),
    ensures
        sky_reach_inv(light, old_light, q0, queue, out.push(e), from),
{
    reveal(sky_reach_inv);
    let o1 = out.push(e);
    assert forall|k: int| from <= k < o1.len() implies #[trigger] sky_out_ok(light, q0, o1[k]) by {
        if k < out.len() {
            assert(o1[k] == out[k]);
        } else {
            assert(o1[k] == e);
        }
    }
}

/// Propagate skylight within a chunk, returning the light updates to be
/// applied outside of the chunk
#[verifier::spinoff_prover]
#[verifier::rlimit(40)]
pub fn propagate_skylight<Store: LightStore<Skylight>>(
    light_store: &mut Store,
    light_propagation_queue: &mut VecDeque<LightPropagationStep<Skylight>>,
    light_updates_outside_chunk: &mut Vec<(FaceIndex, LightUpdate)>,
    blocks: &ChunkBlockStorage,
)
    requires
        old(light_store).store_wf(),
        forall|v: Skylight| Store::storable(v) <==> v.0 < 16,
        forall|j: int| 0 <= j < 32768 ==> (#[trigger] old(light_store).light_at(j)).0 < 16,
        blocks.wf(),
        blocks.all_registered(),
        sky_queue_wf(old(light_propagation_queue)@),
    ensures
        final(light_store).store_wf(),
        final(light_store).rest() == old(light_store).rest(),
        final(light_propagation_queue)@.len() == 0,
        // skylight only grows
        forall|i: int|
            0 <= i < 32768 ==> sky_seq(*final(light_store))[i] >= sky_seq(*old(light_store))[i],
        // every raised level has reached all neighbours
        forall|p: LocalBlockPosition, f: int|
            p.is_valid() && 0 <= f < 6 ==> sky_seq(*final(light_store))[p.index()] == sky_seq(
                *old(light_store),
            )[p.index()] || sky_cell_ok(
                sky_seq(*final(light_store)),
                Seq::empty(),
                final(light_updates_outside_chunk)@,
                *blocks,
                sky_seq(*final(light_store))[p.index()],
                p,
                f,
            ),
        // every queued step has arrived, and repair steps have reached all neighbours
        forall|k: int|
            0 <= k < old(light_propagation_queue)@.len() ==> sky_seq(*final(light_store))[old(light_propagation_queue)@[k].position.index()] >= old(light_propagation_queue)@[k].light.0,
        forall|k: int, f: int|
            0 <= k < old(light_propagation_queue)@.len() && old(light_propagation_queue)@[k].is_repair_step && 0 <= f < 6 ==> sky_cell_ok(
                sky_seq(*final(light_store)),
                Seq::empty(),
                final(light_updates_outside_chunk)@,
                *blocks,
                old(light_propagation_queue)@[k].light.0,
                old(light_propagation_queue)@[k].position,
                f,
            ),
        // no light appears that is not accounted for
        forall|p: LocalBlockPosition|
            p.is_valid() ==> #[trigger] sky_supported(
                sky_seq(*final(light_store)),
                sky_seq(*old(light_store)),
                old(light_propagation_queue)@,
                *blocks,
                p,
                sky_seq(*final(light_store))[p.index()],
            ),
        // no raised level exceeds the initial steps' levels less what is lost on the way
        forall|p: LocalBlockPosition|
            p.is_valid() ==> sky_seq(*final(light_store))[p.index()] <= sky_seq(*old(light_store))[p.index()]
                || #[trigger] sky_within_reach(old(light_propagation_queue)@, p, sky_seq(*final(light_store))[p.index()]),
        // each update sent to a neighbouring chunk carries a level written at a border block
        forall|k: int|
            old(light_updates_outside_chunk)@.len() <= k < final(light_updates_outside_chunk)@.len() ==> #[trigger] sky_out_ok(
                sky_seq(*final(light_store)),
                old(light_propagation_queue)@,
                final(light_updates_outside_chunk)@[k],
            ),
        // updates for neighbouring chunks are only appended
        final(light_updates_outside_chunk)@.len() >= old(light_updates_outside_chunk)@.len(),
        forall|k: int|
            0 <= k < old(light_updates_outside_chunk)@.len() ==> final(light_updates_outside_chunk)@[k]
                == old(light_updates_outside_chunk)@[k],
        forall|k: int|
            old(light_updates_outside_chunk)@.len() <= k < final(light_updates_outside_chunk)@.len()
                ==> sky_out_wf(final(light_updates_outside_chunk)@[k]),
{
    let ghost q0 = light_propagation_queue@;
    let ghost old_light = sky_seq(*light_store);
    let ghost out0 = light_updates_outside_chunk@;
    let ghost mut pmax: Seq<u8> = Seq::new(32768, |i: int| 0u8);
    let ghost mut n_popped: int = 0;
    proof {
        assert forall|j: int| 0 <= j < 32768 implies #[trigger] old_light[j] == sky_max(old_light[j], pmax[j])
            && pmax[j] < 16 && old_light[j] < 16 by {
            assert(old(light_store).light_at(j).0 < 16);
        }
        assert forall|p: LocalBlockPosition, f: int|
            p.is_valid() && 0 <= f < 6 implies #[trigger] sky_cell_ok(
            old_light,
            q0,
            out0,
            *blocks,
            pmax[p.index()],
            p,
            f,
        ) by {
            crate::terrain::position_types::lemma_array_index_roundtrip(p);
            assert(pmax[p.index()] == 0);
        }
        lemma_sky_phi(old_light, 32768, 0, 0);
        lemma_sky_support_init(old_light, q0, *blocks);
        lemma_sky_reach_init(old_light, q0, out0);
    }
    while light_propagation_queue.len() > 0
        invariant
            light_store.store_wf(),
            light_store.rest() == old(light_store).rest(),
            forall|v: Skylight| Store::storable(v) <==> v.0 < 16,
            blocks.wf(),
            blocks.all_registered(),
            0 <= n_popped <= q0.len(),
            light_propagation_queue@.len() >= q0.len() - n_popped,
            sky_queue_wf(light_propagation_queue@),
            sky_queue_wf(q0),
            forall|k: int|
                0 <= k < q0.len() - n_popped ==> #[trigger] light_propagation_queue@[k] == q0[k
                    + n_popped],
            forall|k: int|
                q0.len() - n_popped <= k < light_propagation_queue@.len()
                    ==> !(#[trigger] light_propagation_queue@[k]).is_repair_step,
            sky_light_inv(sky_seq(*light_store), old_light, pmax),
            old_light == sky_seq(*old(light_store)),
            sky_all_cells_ok(
                sky_seq(*light_store),
                light_propagation_queue@,
                light_updates_outside_chunk@,
                *blocks,
                pmax,
            ),
            sky_absorbed(sky_seq(*light_store), pmax, q0, n_popped),
            q0 == old(light_propagation_queue)@,
            light_updates_outside_chunk@.len() >= out0.len(),
            out0 == old(light_updates_outside_chunk)@,
            forall|k: int|
                0 <= k < out0.len() ==> #[trigger] light_updates_outside_chunk@[k] == out0[k],
            forall|k: int|
                out0.len() <= k < light_updates_outside_chunk@.len() ==> sky_out_wf(
                    #[trigger] light_updates_outside_chunk@[k],
                ),
            sky_phi(sky_seq(*light_store), 32768) >= 0,
            sky_support_inv(sky_seq(*light_store), old_light, q0, *blocks, light_propagation_queue@),
            sky_reach_inv(sky_seq(*light_store), old_light, q0, light_propagation_queue@, light_updates_outside_chunk@, out0.len() as int),
        decreases q0.len() - n_popped, sky_phi(sky_seq(*light_store), 32768),
            light_propagation_queue@.len(),
    {
        let ghost queue_before = light_propagation_queue@;
        let ghost light_before = sky_seq(*light_store);
        let ghost n_before = n_popped;
        let step = match light_propagation_queue.pop_front() {
            Some(s) => s,
            None => {
                return ;
            },
        };
        let ghost is_initial = n_popped < q0.len();
        proof {
            if is_initial {
                assert(queue_before[0] == q0[n_popped]);
                n_popped = n_popped + 1;
            } else {
                assert(!queue_before[0].is_repair_step);
            }
            assert(queue_before[0].position.is_valid() && queue_before[0].light.0 < 16);
            crate::terrain::position_types::lemma_array_index_roundtrip(step.position);
        }
        let ghost idx = step.position.index();

        // calculate new light value
        let light_old = light_store.read(step.position);
        let light_new = if step.light.0 > light_old.0 {
            step.light
        } else {
            light_old
        };

        // stop propagating if the new light value is less than or equal to existing light value
        // AND this propagation step wasn't queued by the shadow propagation to repair light areas
        // damaged by shadow
        if step.light.0 <= light_old.0 && !step.is_repair_step {
            proof {
                lemma_sky_support_pop(light_before, old_light, q0, *blocks, queue_before);
                lemma_sky_reach_pop(light_before, old_light, q0, queue_before, light_updates_outside_chunk@, out0.len() as int);
                assert forall|p: LocalBlockPosition, f: int|
                    p.is_valid() && 0 <= f < 6 implies #[trigger] sky_cell_ok(
                    light_before,
                    light_propagation_queue@,
                    light_updates_outside_chunk@,
                    *blocks,
                    pmax[p.index()],
                    p,
                    f,
                ) by {
                    assert(sky_cell_ok(light_before, queue_before, light_updates_outside_chunk@, *blocks, pmax[p.index()], p, f));
                    lemma_sky_cell_transfer(
                        light_before,
                        queue_before,
                        light_updates_outside_chunk@,
                        light_before,
                        light_propagation_queue@,
                        light_updates_outside_chunk@,
                        *blocks,
                        pmax[p.index()],
                        pmax[p.index()],
                        p,
                        f,
                    );
                }
                if is_initial {
                    assert(q0[n_before] == step);
                }
            }
            continue ;
        }
        // update light value
        light_store.write(step.position, light_new);
        let ghost pold = pmax[idx];
        let ghost pm_before = pmax;
        let ghost light_now = sky_seq(*light_store);
        proof {
            assert(light_now =~= light_before.update(idx, light_new.0));
            lemma_sky_support_write(light_before, light_now, old_light, q0, *blocks, queue_before);
            lemma_sky_reach_pop(light_before, old_light, q0, queue_before, light_updates_outside_chunk@, out0.len() as int);
            lemma_sky_reach_write(light_before, light_now, old_light, q0, queue_before, light_updates_outside_chunk@, out0.len() as int);
            pmax = pmax.update(idx, sky_max(pold, step.light.0));
            lemma_sky_phi(light_before, 32768, idx, light_new.0);
            lemma_sky_phi(light_now, 32768, idx, light_new.0);
            assert(light_before[idx] == sky_max(old_light[idx], pold));
            assert forall|j: int| 0 <= j < 32768 implies #[trigger] light_now[j] == sky_max(
                old_light[j],
                pmax[j],
            ) && pmax[j] < 16 && old_light[j] < 16 by {
                if j != idx {
                    assert(light_before[j] == sky_max(old_light[j], pm_before[j]));
                }
            }
            assert forall|p: LocalBlockPosition, f: int|
                p.is_valid() && 0 <= f < 6 && p.index() != idx implies #[trigger] sky_cell_ok(
                light_now,
                light_propagation_queue@,
                light_updates_outside_chunk@,
                *blocks,
                pmax[p.index()],
                p,
                f,
            ) by {
                crate::terrain::position_types::lemma_array_index_roundtrip(p);
                assert(sky_cell_ok(light_before, queue_before, light_updates_outside_chunk@, *blocks, pm_before[p.index()], p, f));
                lemma_sky_cell_transfer(
                    light_before,
                    queue_before,
                    light_updates_outside_chunk@,
                    light_now,
                    light_propagation_queue@,
                    light_updates_outside_chunk@,
                    *blocks,
                    pm_before[p.index()],
                    pmax[p.index()],
                    p,
                    f,
                );
            }
            assert forall|f: int| 0 <= f < 6 implies #[trigger] sky_cell_ok(
                light_now,
                light_propagation_queue@,
                light_updates_outside_chunk@,
                *blocks,
                pold,
                step.position,
                f,
            ) by {
                assert(sky_cell_ok(light_before, queue_before, light_updates_outside_chunk@, *blocks, pm_before[idx], step.position, f));
                lemma_sky_cell_transfer(
                    light_before,
                    queue_before,
                    light_updates_outside_chunk@,
                    light_now,
                    light_propagation_queue@,
                    light_updates_outside_chunk@,
                    *blocks,
                    pold,
                    pold,
                    step.position,
                    f,
                );
            }
            assert forall|k: int| 0 <= k < n_popped implies light_now[(#[trigger] q0[k]).position.index()] >= q0[k].light.0 && (
                q0[k].is_repair_step ==> pmax[q0[k].position.index()] >= q0[k].light.0) by {
                crate::terrain::position_types::lemma_array_index_roundtrip(q0[k].position);
                if k < n_before {
                    let j = q0[k].position.index();
                    if j != idx {
                        assert(light_now[j] == light_before[j]);
                        assert(pmax[j] == pm_before[j]);
                    }
                } else {
                    assert(q0[k] == step);
                }
            }
        }
        spread_skylight_to_neighbours(
            light_store,
            light_propagation_queue,
            light_updates_outside_chunk,
            blocks,
            step.position,
            step.light,
            Ghost(pmax),
            Ghost(pold),
            Ghost(old_light),
            Ghost(q0),
            Ghost(out0.len() as int),
        );
    }
    proof {
        assert(light_propagation_queue@ =~= Seq::<LightPropagationStep<Skylight>>::empty());
        reveal(sky_support_inv);
        reveal(sky_reach_inv);
        let light = sky_seq(*light_store);
        assert forall|p: LocalBlockPosition, f: int|
            p.is_valid() && 0 <= f < 6 implies light[p.index()] == old_light[p.index()] || sky_cell_ok(
            light,
            Seq::empty(),
            light_updates_outside_chunk@,
            *blocks,
            light[p.index()],
            p,
            f,
        ) by {
            crate::terrain::position_types::lemma_array_index_roundtrip(p);
            let i = p.index();
            assert(sky_cell_ok(light, light_propagation_queue@, light_updates_outside_chunk@, *blocks, pmax[i], p, f));
            if light[i] != old_light[i] {
                lemma_sky_cell_transfer(light, Seq::empty(), light_updates_outside_chunk@, light, Seq::empty(), light_updates_outside_chunk@, *blocks, pmax[i], light[i], p, f);
            }
        }
        assert forall|k: int, f: int|
            0 <= k < q0.len() && q0[k].is_repair_step && 0 <= f < 6 implies sky_cell_ok(
            light,
            Seq::empty(),
            light_updates_outside_chunk@,
            *blocks,
            q0[k].light.0,
            q0[k].position,
            f,
        ) by {
            let p = q0[k].position;
            assert(p.is_valid());
            assert(pmax[p.index()] >= q0[k].light.0);
            assert(sky_cell_ok(light, light_propagation_queue@, light_updates_outside_chunk@, *blocks, pmax[p.index()], p, f));
            lemma_sky_cell_transfer(light, Seq::empty(), light_updates_outside_chunk@, light, Seq::empty(), light_updates_outside_chunk@, *blocks, pmax[p.index()], q0[k].light.0, p, f);
        }
        assert forall|k: int| 0 <= k < q0.len() implies light[q0[k].position.index()] >= q0[k].light.0 by {
            assert(light[q0[k].position.index()] >= q0[k].light.0);
        }
    }
}

/// Send the skylight of a step that was just written at `position` across each face:
/// unchanged downwards and one less in other directions, queued for transparent
/// neighbours it would brighten and recorded for the neighbouring chunk across the border.
fn spread_skylight_to_neighbours<Store: LightStore<Skylight>>(
    light_store: &Store,
    queue: &mut VecDeque<LightPropagationStep<Skylight>>,
    out: &mut Vec<(FaceIndex, LightUpdate)>,
    blocks: &ChunkBlockStorage,
    position: LocalBlockPosition,
    light: Skylight,
    Ghost(pmax): Ghost<Seq<u8>>,
    Ghost(pold): Ghost<u8>,
    Ghost(old_light): Ghost<Seq<u8>>,
    Ghost(q0): Ghost<Seq<LightPropagationStep<Skylight>>>,
    Ghost(out_start): Ghost<int>,
)
    requires
        sky_support_inv(sky_seq(*light_store), old_light, q0, *blocks, old(queue)@),
        sky_reach_inv(sky_seq(*light_store), old_light, q0, old(queue)@, old(out)@, out_start),
        sky_within_reach(q0, position, light.0),
        sky_seq(*light_store)[position.index()] >= light.0,
        light_store.store_wf(),
        forall|v: Skylight| Store::storable(v) <==> v.0 < 16,
        blocks.wf(),
        blocks.all_registered(),
        position.is_valid(),
        light.0 < 16,
        pmax.len() == 32768,
        pmax[position.index()] == sky_max(pold, light.0),
        sky_queue_wf(old(queue)@),
        forall|p: LocalBlockPosition, f: int|
            p.is_valid() && 0 <= f < 6 && p.index() != position.index() ==> #[trigger] sky_cell_ok(
                sky_seq(*light_store),
                old(queue)@,
                old(out)@,
                *blocks,
                pmax[p.index()],
                p,
                f,
            ),
        forall|f: int|
            0 <= f < 6 ==> #[trigger] sky_cell_ok(
                sky_seq(*light_store),
                old(queue)@,
                old(out)@,
                *blocks,
                pold,
                position,
                f,
            ),
    ensures
        final(queue)@.len() >= old(queue)@.len(),
        forall|k: int| 0 <= k < old(queue)@.len() ==> #[trigger] final(queue)@[k] == old(queue)@[k],
        sky_queue_wf(final(queue)@),
        forall|k: int|
            old(queue)@.len() <= k < final(queue)@.len() ==> !(#[trigger] final(queue)@[k]).is_repair_step,
        final(out)@.len() >= old(out)@.len(),
        forall|k: int| 0 <= k < old(out)@.len() ==> #[trigger] final(out)@[k] == old(out)@[k],
        forall|k: int| old(out)@.len() <= k < final(out)@.len() ==> sky_out_wf(#[trigger] final(out)@[k]),
        sky_all_cells_ok(sky_seq(*light_store), final(queue)@, final(out)@, *blocks, pmax),
        sky_support_inv(sky_seq(*light_store), old_light, q0, *blocks, final(queue)@),
        sky_reach_inv(sky_seq(*light_store), old_light, q0, final(queue)@, final(out)@, out_start),
{
    let ghost light_now = sky_seq(*light_store);
    let ghost queue_now = queue@;
    let ghost out_now = out@;
    let ghost idx = position.index();
    proof {
        crate::terrain::position_types::lemma_array_index_roundtrip(position);
    }
    let mut face_index: usize = 0;
    while face_index < 6
        invariant
            light_store.store_wf(),
            forall|v: Skylight| Store::storable(v) <==> v.0 < 16,
            blocks.wf(),
            blocks.all_registered(),
            position.is_valid(),
            idx == position.index(),
            0 <= idx < 32768,
            light.0 < 16,
            pmax.len() == 32768,
            pmax[idx] == sky_max(pold, light.0),
            sky_seq(*light_store) == light_now,
            light_now.len() == 32768,
            face_index <= 6,
            sky_support_inv(light_now, old_light, q0, *blocks, queue@),
            light_now[idx] >= light.0,
            sky_reach_inv(light_now, old_light, q0, queue@, out@, out_start),
            sky_within_reach(q0, position, light.0),
            queue@.len() >= queue_now.len(),
            forall|k: int| 0 <= k < queue_now.len() ==> #[trigger] queue@[k] == queue_now[k],
            sky_queue_wf(queue@),
            forall|k: int| queue_now.len() <= k < queue@.len() ==> !(#[trigger] queue@[k]).is_repair_step,
            out@.len() >= out_now.len(),
            forall|k: int| 0 <= k < out_now.len() ==> #[trigger] out@[k] == out_now[k],
            forall|k: int| out_now.len() <= k < out@.len() ==> sky_out_wf(#[trigger] out@[k]),
            forall|p: LocalBlockPosition, f: int|
                p.is_valid() && 0 <= f < 6 && (p.index() != idx || f < face_index) ==> #[trigger] sky_cell_ok(
                    light_now,
                    queue@,
                    out@,
                    *blocks,
                    pmax[p.index()],
                    p,
                    f,
                ),
            forall|f: int|
                face_index <= f < 6 ==> #[trigger] sky_cell_ok(light_now, queue@, out@, *blocks, pold, position, f),
        decreases 6 - face_index,
    {
        let ghost q_before = queue@;
        let ghost o_before = out@;
        let neighbour_offset = face_normal(face_index);
        proof {
            lemma_neighbour_valid(position, face_index as int);
        }
        // calculate new light value to propagate to neighbours
        let light_diminished = if face_index == 4 {
            // Propagate infinitely downwards
            light
        } else {
            light.decrement_and_saturate()
        };

        if light_diminished.0 != 0 {
            match position.try_add(neighbour_offset) {
                Some(neighbour_pos) => {
                    // work out if the light can pass into the neighbouring block
                    let neighbour_block_id = blocks.get_block(neighbour_pos);
                    let neighbour_block = get_block(neighbour_block_id);
                    let existing_light_value = light_store.read(neighbour_pos);

                    let can_travel_into_block = neighbour_block.model.is_transparent_in_direction(
                        FaceIndex(face_index).opposite(),
                    );

                    // work out if propagating light to the neighbouring block would increase the light
                    // value in that block
                    let would_increase_light = existing_light_value.0 < light_diminished.0;

                    if can_travel_into_block && would_increase_light {
                        proof {
                            assert(transparent_at(*blocks, neighbour_pos));
                            lemma_sky_support_push(light_now, old_light, q0, *blocks, queue@, position, face_index as int,
                                light.0, light_diminished.0);
                            assert(light_diminished.0 == sky_dim(face_index as int, light.0));
                            lemma_sky_reach_push(light_now, old_light, q0, queue@, out@, out_start, position, face_index as int,
                                light.0);
                        }
                        queue.push_back(
                            LightPropagationStep {
                                position: neighbour_pos,
                                light: light_diminished,
                                is_repair_step: false,
                            },
                        );
                    }
                },
                None => {
                    // send light update to neighbouring chunk
                    let pos_in_neighbour_chunk = position.wrapping_add(neighbour_offset);
                    let item = (
                        FaceIndex(face_index),
                        LightUpdate::Skylight(
                            LightPropagationStep {
                                position: pos_in_neighbour_chunk,
                                light: light_diminished,
                                is_repair_step: false,
                            },
                        ),
                    );
                    proof {
                        assert(pos_in_neighbour_chunk == wrapped_neighbour_spec(position, face_index as int));
                        assert(neighbour_spec(position, face_index as int) is None);
                        assert(light_diminished == Skylight(sky_dim(face_index as int, light.0)));
                        lemma_sky_outs_push(light_now, old_light, q0, queue@, out@, out_start, item, position, face_index as int, light.0);
                    }
                    out.push(item);
                },
            }
        }
        proof {
            lemma_sky_face_step(
                light_now,
                q_before,
                queue@,
                o_before,
                out@,
                *blocks,
                pold,
                light.0,
                light_diminished.0,
                position,
                face_index as int,
            );
            assert forall|p: LocalBlockPosition, f: int|
                p.is_valid() && 0 <= f < 6 && (p.index() != idx || f < face_index + 1) implies #[trigger] sky_cell_ok(
                light_now,
                queue@,
                out@,
                *blocks,
                pmax[p.index()],
                p,
                f,
            ) by {
                if p.index() == idx {
                    crate::terrain::position_types::lemma_index_injective(p, position);
                }
                if p.index() != idx || f < face_index {
                    lemma_sky_cell_transfer(
                        light_now,
                        q_before,
                        o_before,
                        light_now,
                        queue@,
                        out@,
                        *blocks,
                        pmax[p.index()],
                        pmax[p.index()],
                        p,
                        f,
                    );
                }
            }
            assert forall|f: int| face_index + 1 <= f < 6 implies #[trigger] sky_cell_ok(
                light_now,
                queue@,
                out@,
                *blocks,
                pold,
                position,
                f,
            ) by {
                lemma_sky_cell_transfer(
                    light_now,
                    q_before,
                    o_before,
                    light_now,
                    queue@,
                    out@,
                    *blocks,
                    pold,
                    pold,
                    position,
                    f,
                );
            }
        }
        face_index = face_index + 1;
    }
}

} // verus!

verus! {

/// Skylight entering this chunk at tile `idx` of side `s` from the neighbouring chunk
/// on that side: from above it comes undiminished, and full where there is no chunk
/// above; from any other side it comes one level less, and not at all where there
/// is no chunk.
pub open spec fn side_skylight_spec(side: Option<ChunkSideLight>, s: int, idx: int) -> int {
    match side {
        Some(side) => if s == 1 {
            side.sky@[idx].0 as int
        } else if side.sky@[idx].0 == 0 {
            0
        } else {
            side.sky@[idx].0 - 1
        },
        None => if s == 1 {
            15
        } else {
            0
        },
    }
}

/// `st` brings the skylight entering at tile `idx` of side `s` into the transparent
/// block of this chunk on that tile.
pub open spec fn sky_side_step_ok(
    blocks: Seq<BlockId>,
    side: Option<ChunkSideLight>,
    s: int,
    idx: int,
    st: LightPropagationStep<Skylight>,
) -> bool {
    &&& st.position == side_position_spec(s, idx % 32, idx / 32)
    &&& st.light.0 == side_skylight_spec(side, s, idx)
    &&& st.light.0 != 0
    &&& !block_is_opaque_spec(blocks[st.position.index()].0 as int)
    &&& !st.is_repair_step
}

/// The steps bringing skylight in across side `s` of the chunk from its first `n` tiles,
/// in tile order: into the transparent block on the tile, when any light enters there.
pub open spec fn sky_side_steps(blocks: Seq<BlockId>, side: Option<ChunkSideLight>, s: int, n: nat) -> Seq<
    LightPropagationStep<Skylight>,
>
    decreases n,
{
    if n == 0 {
        Seq::empty()
    } else {
        let idx = n - 1;
        let rest = sky_side_steps(blocks, side, s, (n - 1) as nat);
        let st = LightPropagationStep {
            position: side_position_spec(s, idx % 32, idx / 32),
            light: Skylight(side_skylight_spec(side, s, idx) as u8),
            is_repair_step: false,
        };
        if st.light.0 != 0 && !block_is_opaque_spec(blocks[st.position.index()].0 as int) {
            rest.push(st)
        } else {
            rest
        }
    }
}

/// The steps bringing skylight in across the first `n` sides, side by side.
pub open spec fn sky_sides_steps(blocks: Seq<BlockId>, sides: Seq<Option<ChunkSideLight>>, n: nat) -> Seq<
    LightPropagationStep<Skylight>,
>
    decreases n,
{
    if n == 0 {
        Seq::empty()
    } else {
        sky_sides_steps(blocks, sides, (n - 1) as nat) + sky_side_steps(blocks, sides[n - 1], n - 1, 1024)
    }
}

/// `st` brings the skylight entering at some tile of side `s` into this chunk.
pub open spec fn sky_step_from_side(
    blocks: Seq<BlockId>,
    side: Option<ChunkSideLight>,
    s: int,
    st: LightPropagationStep<Skylight>,
) -> bool {
    exists|idx: int| 0 <= idx < 1024 && #[trigger] sky_side_step_ok(blocks, side, s, idx, st)
}

/// `st` brings the skylight entering at some tile of some side into this chunk.
pub open spec fn initial_skylight_step(
    blocks: Seq<BlockId>,
    sides: Seq<Option<ChunkSideLight>>,
    st: LightPropagationStep<Skylight>,
) -> bool {
    exists|s: int| 0 <= s < sides.len() && #[trigger] sky_step_from_side(blocks, sides[s], s, st)
}

fn side_skylight(side_opt: &Option<ChunkSideLight>, side_index: usize, index_in_side: usize) -> (r: Skylight)
    requires
        index_in_side < 1024,
        side_opt matches Some(side) ==> side.wf(),
    ensures
        r.0 == side_skylight_spec(*side_opt, side_index as int, index_in_side as int),
        r.0 < 16,
{
    if side_index == 1 {
        match side_opt {
            Some(side) => side.sky[index_in_side],
            None => Skylight(Skylight::MAX_VALUE),
        }
    } else {
        match side_opt {
            Some(side) => side.sky[index_in_side].decrement_and_saturate(),
            None => Skylight::zero(),
        }
    }
}

/// Pushes the skylight entering through side `side_index` onto `result`.
fn add_light_values_for_side(
    result: &mut VecDeque<LightPropagationStep<Skylight>>,
    blocks: &[BlockId],
    side_index: usize,
    side_opt: &Option<ChunkSideLight>,
)
    requires
        blocks@.len() == 32768,
        forall|i: int| 0 <= i < 32768 ==> (#[trigger] blocks@[i]).0 < 5,
        side_index < 6,
        side_opt matches Some(side) ==> side.wf(),
        sky_queue_wf(old(result)@),
    ensures
        sky_queue_wf(final(result)@),
        final(result)@.len() >= old(result)@.len(),
        forall|k: int| 0 <= k < old(result)@.len() ==> #[trigger] final(result)@[k] == old(result)@[k],
        forall|k: int|
            old(result)@.len() <= k < final(result)@.len() ==> sky_step_from_side(
                blocks@,
                *side_opt,
                side_index as int,
                #[trigger] final(result)@[k],
            ),
        forall|idx: int, st: LightPropagationStep<Skylight>|
            0 <= idx < 1024 && #[trigger] sky_side_step_ok(blocks@, *side_opt, side_index as int, idx, st)
                ==> exists|k: int| 0 <= k < final(result)@.len() && final(result)@[k] == st,
        final(result)@ == old(result)@ + sky_side_steps(blocks@, *side_opt, side_index as int, 1024),
{
    let ghost start = result@;
    let mut index_in_side: usize = 0;
    while index_in_side < CHUNK_SIZE_SQUARED
        invariant
            blocks@.len() == 32768,
            forall|i: int| 0 <= i < 32768 ==> (#[trigger] blocks@[i]).0 < 5,
            side_index < 6,
            side_opt matches Some(side) ==> side.wf(),
            index_in_side <= 1024,
            sky_queue_wf(result@),
            result@.len() >= start.len(),
            forall|k: int| 0 <= k < start.len() ==> #[trigger] result@[k] == start[k],
            forall|k: int|
                start.len() <= k < result@.len() ==> sky_step_from_side(
                    blocks@,
                    *side_opt,
                    side_index as int,
                    #[trigger] result@[k],
                ),
            forall|idx: int, st: LightPropagationStep<Skylight>|
                0 <= idx < index_in_side && #[trigger] sky_side_step_ok(
                    blocks@,
                    *side_opt,
                    side_index as int,
                    idx,
                    st,
                ) ==> exists|k: int| 0 <= k < result@.len() && result@[k] == st,
            result@ == start + sky_side_steps(blocks@, *side_opt, side_index as int, index_in_side as nat),
        decreases 1024 - index_in_side,
    {
        let ghost before = result@;
        let light = side_skylight(side_opt, side_index, index_in_side);
        proof {
            lemma_side_index(index_in_side);
        }
        if light.0 != 0 {
            let u = (index_in_side & (CHUNK_SIZE - 1)) as u32;
            let v = (index_in_side >> CHUNK_SIZE_LOG2) as u32;
            let position = side_position(side_index, u, v);
            proof {
                crate::terrain::position_types::lemma_array_index_roundtrip(position);
            }
            let block_id = blocks[position.get_array_index()];
            let block = get_block(block_id);
            if block.model.is_transparent_in_direction(FaceIndex(side_index)) {
                let st = LightPropagationStep { position, light, is_repair_step: false };
                proof {
                    assert(sky_side_step_ok(
                        blocks@,
                        *side_opt,
                        side_index as int,
                        index_in_side as int,
                        st,
                    ));
                }
                result.push_back(st);
            }
        }
        proof {
            assert(result@ =~= start + sky_side_steps(blocks@, *side_opt, side_index as int, (index_in_side + 1) as nat));
            assert forall|k: int| start.len() <= k < result@.len() implies sky_step_from_side(
                blocks@,
                *side_opt,
                side_index as int,
                #[trigger] result@[k],
            ) by {
                if k < before.len() {
                    assert(result@[k] == before[k]);
                } else {
                    assert(sky_side_step_ok(
                        blocks@,
                        *side_opt,
                        side_index as int,
                        index_in_side as int,
                        result@[k],
                    ));
                }
            }
            assert forall|idx: int, st: LightPropagationStep<Skylight>|
                0 <= idx < index_in_side + 1 && #[trigger] sky_side_step_ok(
                    blocks@,
                    *side_opt,
                    side_index as int,
                    idx,
                    st,
                ) implies exists|k: int| 0 <= k < result@.len() && result@[k] == st by {
                if idx < index_in_side {
                    let k = choose|k: int| 0 <= k < before.len() && before[k] == st;
                    assert(result@[k] == before[k]);
                } else {
                    assert(result@[before.len() as int] == st);
                }
            }
        }
        index_in_side = index_in_side + 1;
    }
}

/// `q` is the initial skylight queue of a chunk: exactly the steps bringing skylight
/// in through its sides.
pub open spec fn initial_skylight_queue(
    blocks: Seq<BlockId>,
    surrounding_sides_light: Seq<Option<ChunkSideLight>>,
    q: Seq<LightPropagationStep<Skylight>>,
) -> bool {
    &&& sky_queue_wf(q)
    &&& forall|k: int|
            0 <= k < q.len() ==> initial_skylight_step(blocks, surrounding_sides_light, #[trigger] q[k])
    &&& forall|s: int, idx: int, st: LightPropagationStep<Skylight>|
            0 <= s < surrounding_sides_light.len() && 0 <= idx < 1024 && #[trigger] sky_side_step_ok(
                blocks,
                surrounding_sides_light[s],
                s,
                idx,
                st,
            ) ==> exists|k: int| 0 <= k < q.len() && q[k] == st
}

/// Under open sky full sunlight enters: with no chunk above, the initial skylight queue
/// brings skylight 15 into every transparent block of the top layer.
pub proof fn lemma_open_sky_lights_top_layer(
    blocks: Seq<BlockId>,
    sides: Seq<Option<ChunkSideLight>>,
    q: Seq<LightPropagationStep<Skylight>>,
    x: int,
    z: int,
)
    requires
        blocks.len() == 32768,
        sides.len() == 6,
        sides[1] is None,
        initial_skylight_queue(blocks, sides, q),
        0 <= x < 32,
        0 <= z < 32,
        !block_is_opaque_spec(blocks[x + 32 * 31 + 1024 * z].0 as int),
    ensures
        exists|k: int|
            0 <= k < q.len() && q[k] == (LightPropagationStep {
                position: LocalBlockPosition(UVec3 { x: x as u32, y: 31, z: z as u32 }),
                light: Skylight(15),
                is_repair_step: false,
            }),
{
    let idx = z + 32 * x;
    let st = LightPropagationStep {
        position: LocalBlockPosition(UVec3 { x: x as u32, y: 31, z: z as u32 }),
        light: Skylight(15),
        is_repair_step: false,
    };
    assert(idx % 32 == z && idx / 32 == x);
    assert(st.position == side_position_spec(1, idx % 32, idx / 32));
    assert(st.position.index() == x + 32 * 31 + 1024 * z);
    assert(sky_side_step_ok(blocks, sides[1], 1, idx, st));
}

/// A chunk with no neighbouring chunks gets skylight from above only: every step of its
/// initial skylight queue brings full sunlight into a transparent block of the top layer.
pub proof fn lemma_lone_chunk_lit_from_above_only(
    blocks: Seq<BlockId>,
    sides: Seq<Option<ChunkSideLight>>,
    q: Seq<LightPropagationStep<Skylight>>,
    k: int,
)
    requires
        blocks.len() == 32768,
        sides.len() == 6,
        forall|s: int| 0 <= s < 6 ==> (#[trigger] sides[s]) is None,
        initial_skylight_queue(blocks, sides, q),
        0 <= k < q.len(),
    ensures
        q[k].position.0.y == 31,
        q[k].position.0.x < 32 && q[k].position.0.z < 32,
        q[k].light.0 == 15,
        !q[k].is_repair_step,
        !block_is_opaque_spec(blocks[q[k].position.index()].0 as int),
{
    assert(initial_skylight_step(blocks, sides, q[k]));
    let s = choose|s: int| 0 <= s < sides.len() && #[trigger] sky_step_from_side(blocks, sides[s], s, q[k]);
    let idx = choose|idx: int| 0 <= idx < 1024 && #[trigger] sky_side_step_ok(blocks, sides[s], s, idx, q[k]);
    assert(sides[s] is None);
    assert(s == 1);
    assert(idx % 32 < 32 && idx / 32 < 32);
}

/// Returns a LightPropagationQueue for all of the blocks on the sides of the chunk into which
/// skylight can propagate from neighbouring chunks
pub fn get_initial_skylight_queue(
    blocks: &[BlockId],
    surrounding_sides_light: &[Option<ChunkSideLight>],
) -> (r: VecDeque<LightPropagationStep<Skylight>>)
    requires
        blocks@.len() == 32768,
        forall|i: int| 0 <= i < 32768 ==> (#[trigger] blocks@[i]).0 < 5,
        surrounding_sides_light@.len() <= 6,
        forall|s: int|
            0 <= s < surrounding_sides_light@.len() ==> ((#[trigger] surrounding_sides_light@[s]) matches Some(
                side,
            ) ==> side.wf()),
    ensures
        initial_skylight_queue(blocks@, surrounding_sides_light@, r@),
        r@ == sky_sides_steps(blocks@, surrounding_sides_light@, surrounding_sides_light@.len()),
{
    let mut result: VecDeque<LightPropagationStep<Skylight>> = VecDeque::new();
    let mut side_index: usize = 0;
    while side_index < surrounding_sides_light.len()
        invariant
            blocks@.len() == 32768,
            forall|i: int| 0 <= i < 32768 ==> (#[trigger] blocks@[i]).0 < 5,
            surrounding_sides_light@.len() <= 6,
            forall|s: int|
                0 <= s < surrounding_sides_light@.len() ==> ((#[trigger] surrounding_sides_light@[s]) matches Some(
                    side,
                ) ==> side.wf()),
            side_index <= surrounding_sides_light@.len(),
            sky_queue_wf(result@),
            forall|k: int|
                0 <= k < result@.len() ==> initial_skylight_step(
                    blocks@,
                    surrounding_sides_light@,
                    #[trigger] result@[k],
                ),
            forall|s: int, idx: int, st: LightPropagationStep<Skylight>|
                0 <= s < side_index && 0 <= idx < 1024 && #[trigger] sky_side_step_ok(
                    blocks@,
                    surrounding_sides_light@[s],
                    s,
                    idx,
                    st,
                ) ==> exists|k: int| 0 <= k < result@.len() && result@[k] == st,
            result@ == sky_sides_steps(blocks@, surrounding_sides_light@, side_index as nat),
        decreases surrounding_sides_light@.len() - side_index,
    {
        let ghost before = result@;
        let side_opt = &surrounding_sides_light[side_index];
        add_light_values_for_side(&mut result, blocks, side_index, side_opt);
        proof {
            assert(result@ =~= sky_sides_steps(blocks@, surrounding_sides_light@, (side_index + 1) as nat));
            assert forall|k: int| 0 <= k < result@.len() implies initial_skylight_step(
                blocks@,
                surrounding_sides_light@,
                #[trigger] result@[k],
            ) by {
                if k < before.len() {
                    assert(result@[k] == before[k]);
                } else {
                    assert(sky_step_from_side(
                        blocks@,
                        surrounding_sides_light@[side_index as int],
                        side_index as int,
                        result@[k],
                    ));
                }
            }
            assert forall|s: int, idx: int, st: LightPropagationStep<Skylight>|
                0 <= s < side_index + 1 && 0 <= idx < 1024 && #[trigger] sky_side_step_ok(
                    blocks@,
                    surrounding_sides_light@[s],
                    s,
                    idx,
                    st,
                ) implies exists|k: int| 0 <= k < result@.len() && result@[k] == st by {
                if s < side_index {
                    let k = choose|k: int| 0 <= k < before.len() && before[k] == st;
                    assert(result@[k] == before[k]);
                } else {
                    assert(sky_side_step_ok(blocks@, *side_opt, side_index as int, idx, st));
                }
            }
        }
        side_index = side_index + 1;
    }
    result
}

} // verus!
