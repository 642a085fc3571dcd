//! Which faces of a chunk can see each other through the chunk: its "visibility graph".

use crate::terrain::block::{block_is_opaque_spec, get_block, BlockId};
use crate::terrain::lighting::neighbour_spec;
use crate::terrain::position_types::LocalBlockPosition;
use crate::util::face::{face_normal, FaceIndex};
use crate::util::vector::UVec3;
use crate::terrain::chunk::CHUNK_SIZE_CUBED;
use std::collections::VecDeque;
use vstd::prelude::*;
use vstd::set_lib::{lemma_int_range, lemma_len_subset, set_int_range};

verus! {

/// The block at `p` lets light and sight through.
pub open spec fn transparent_block(blocks: Seq<BlockId>, p: LocalBlockPosition) -> bool {
    !block_is_opaque_spec(blocks[p.index()].0 as int)
}

/// `p` lies on face `f` of the chunk: it has no neighbour inside the chunk across `f`.
pub open spec fn on_chunk_face(p: LocalBlockPosition, f: int) -> bool {
    neighbour_spec(p, f) is None
}

/// `q` is one of the six blocks next to `p` within the chunk.
pub open spec fn adjacent(p: LocalBlockPosition, q: LocalBlockPosition) -> bool {
    exists|f: int| 0 <= f < 6 && neighbour_spec(p, f) == Some(q)
}

/// Step `i` of `path` goes to an adjacent block.
pub open spec fn path_step(path: Seq<LocalBlockPosition>, i: int) -> bool {
    adjacent(path[i], path[i + 1])
}

/// A non-empty walk through transparent blocks of the chunk, one neighbour at a time.
pub open spec fn is_transparent_path(blocks: Seq<BlockId>, path: Seq<LocalBlockPosition>) -> bool {
    &&& path.len() > 0
    &&& forall|i: int|
        0 <= i < path.len() ==> (#[trigger] path[i]).is_valid() && transparent_block(blocks, path[i])
    &&& forall|i: int| 0 <= i < path.len() - 1 ==> #[trigger] path_step(path, i)
}

/// Face `a` of the chunk can be seen from face `b`: a walk through transparent blocks
/// leads from a block on face `a` to a block on face `b`.
pub open spec fn faces_connected(blocks: Seq<BlockId>, a: int, b: int) -> bool {
    exists|path: Seq<LocalBlockPosition>|
        #![trigger is_transparent_path(blocks, path)]
        is_transparent_path(blocks, path) && on_chunk_face(path[0], a) && on_chunk_face(
            path.last(),
            b,
        )
}

/// Bit `i` of `bits` is set.
pub open spec fn bit_set(bits: u16, i: u16) -> bool {
    bits & (1u16 << i) != 0
}

/// The bit that records whether faces `a` and `b` are connected: one bit for each
/// unordered pair of distinct faces, and bit 15, never set, for a face with itself.
pub open spec fn connection_index_spec(a: int, b: int) -> u16 {
    let lo = if a <= b { a } else { b };
    let hi = if a <= b { b } else { a };
    if lo == hi {
        15
    } else if lo == 0 {
        (hi - 1) as u16
    } else if lo == 1 {
        (hi + 3) as u16
    } else if lo == 2 {
        (hi + 6) as u16
    } else if lo == 3 {
        (hi + 8) as u16
    } else {
        14
    }
}

fn connection_index(a: usize, b: usize) -> (r: u16)
    requires
        a < 6,
        b < 6,
    ensures
        r == connection_index_spec(a as int, b as int),
        r < 16,
{
    let (lo, hi) = if a <= b {
        (a, b)
    } else {
        (b, a)
    };
    if lo == hi {
        15
    } else if lo == 0 {
        (hi - 1) as u16
    } else if lo == 1 {
        (hi + 3) as u16
    } else if lo == 2 {
        (hi + 6) as u16
    } else if lo == 3 {
        (hi + 8) as u16
    } else {
        14
    }
}

/// "Visibility graph" from https://tomcc.github.io/2014/08/31/visibility-1.html
/// For each pair of faces, stores whether the faces are connected by non-solid blocks
#[derive(Clone, Copy, Debug)]
pub struct ChunkConnections(pub u16);

/// Start positions of the searches: for `t = 1024 * chunk_face + 32 * v + u`, block
/// `(u, v)` of one face of the chunk.
pub open spec fn face_start_spec(t: int) -> LocalBlockPosition {
    let chunk_face = t / 1024;
    let v = ((t / 32) % 32) as u32;
    let u = (t % 32) as u32;
    if chunk_face == 0 {
        LocalBlockPosition(UVec3 { x: u, y: v, z: 0 })
    } else if chunk_face == 1 {
        LocalBlockPosition(UVec3 { x: u, y: 0, z: v })
    } else if chunk_face == 2 {
        LocalBlockPosition(UVec3 { x: 0, y: u, z: v })
    } else if chunk_face == 3 {
        LocalBlockPosition(UVec3 { x: u, y: v, z: 31 })
    } else if chunk_face == 4 {
        LocalBlockPosition(UVec3 { x: u, y: 31, z: v })
    } else {
        LocalBlockPosition(UVec3 { x: 31, y: u, z: v })
    }
}

fn face_start(t: usize) -> (r: LocalBlockPosition)
    requires
        t < 6144,
    ensures
        r == face_start_spec(t as int),
        r.is_valid(),
{
    let chunk_face = t >> 10;
    let v = ((t >> 5) & 31) as u32;
    let u = (t & 31) as u32;
    proof {
        assert(t >> 10 == t / 1024 && (t >> 5) & 31 == (t / 32) % 32 && t & 31 == t % 32) by (bit_vector);
    }
    if chunk_face == 0 {
        LocalBlockPosition::new(u, v, 0)
    } else if chunk_face == 1 {
        LocalBlockPosition::new(u, 0, v)
    } else if chunk_face == 2 {
        LocalBlockPosition::new(0, u, v)
    } else if chunk_face == 3 {
        LocalBlockPosition::new(u, v, 31)
    } else if chunk_face == 4 {
        LocalBlockPosition::new(u, 31, v)
    } else {
        LocalBlockPosition::new(31, u, v)
    }
}

/// Every block on a face of the chunk is the start position of some search.
proof fn lemma_face_block_is_start(p: LocalBlockPosition, f: int)
    requires
        p.is_valid(),
        0 <= f < 6,
        on_chunk_face(p, f),
    ensures
        exists|t: int| 0 <= t < 6144 && #[trigger] face_start_spec(t) == p,
{
    let x = p.0.x as int;
    let y = p.0.y as int;
    let z = p.0.z as int;
    let t = if f == 0 {
        5 * 1024 + 32 * z + y
    } else if f == 1 {
        4 * 1024 + 32 * z + x
    } else if f == 2 {
        3 * 1024 + 32 * y + x
    } else if f == 3 {
        2 * 1024 + 32 * z + y
    } else if f == 4 {
        1024 + 32 * z + x
    } else {
        32 * y + x
    };
    assert(face_start_spec(t) == p);
}

/// Two valid positions are equal exactly when their array indices are.
proof fn lemma_same_index(p: LocalBlockPosition, q: LocalBlockPosition)
    requires
        p.is_valid(),
        q.is_valid(),
    ensures
        p.index() == q.index() <==> p == q,
{
    if p.index() == q.index() {
        crate::terrain::position_types::lemma_index_injective(p, q);
    }
}

/// Adjacency goes both ways.
proof fn lemma_neighbour_symmetric(p: LocalBlockPosition, f: int)
    requires
        p.is_valid(),
        0 <= f < 6,
        neighbour_spec(p, f) is Some,
    ensures
        neighbour_spec(neighbour_spec(p, f)->0, (f + 3) % 6) == Some(p),
{
}

/// A path walked backwards is a path.
proof fn lemma_path_reverse(blocks: Seq<BlockId>, path: Seq<LocalBlockPosition>)
    requires
        is_transparent_path(blocks, path),
    ensures
        is_transparent_path(blocks, path.reverse()),
        path.reverse()[0] == path.last(),
        path.reverse().last() == path[0],
{
    let r = path.reverse();
    assert forall|i: int| 0 <= i < r.len() - 1 implies #[trigger] path_step(r, i) by {
        let j = path.len() - 2 - i;
        assert(path_step(path, j));
        let f = choose|f: int| 0 <= f < 6 && neighbour_spec(path[j], f) == Some(path[j + 1]);
        lemma_neighbour_symmetric(path[j], f);
        assert(neighbour_spec(r[i], (f + 3) % 6) == Some(r[i + 1]));
    }
    assert forall|i: int| 0 <= i < r.len() implies (#[trigger] r[i]).is_valid() && transparent_block(
        blocks,
        r[i],
    ) by {
        assert(r[i] == path[path.len() - 1 - i]);
    }
}

/// Two paths that start at the same block join into a path between their ends.
proof fn lemma_path_join(blocks: Seq<BlockId>, p1: Seq<LocalBlockPosition>, p2: Seq<LocalBlockPosition>)
    requires
        is_transparent_path(blocks, p1),
        is_transparent_path(blocks, p2),
        p1[0] == p2[0],
    ensures
        is_transparent_path(blocks, p1.reverse() + p2.skip(1)),
        (p1.reverse() + p2.skip(1))[0] == p1.last(),
        (p1.reverse() + p2.skip(1)).last() == p2.last(),
{
    lemma_path_reverse(blocks, p1);
    let r = p1.reverse();
    let t = p2.skip(1);
    let j = r + t;
    assert forall|i: int| 0 <= i < j.len() implies (#[trigger] j[i]).is_valid() && transparent_block(
        blocks,
        j[i],
    ) by {
        if i < r.len() {
            assert(j[i] == r[i]);
        } else {
            assert(j[i] == p2[i - r.len() + 1]);
        }
    }
    assert forall|i: int| 0 <= i < j.len() - 1 implies #[trigger] path_step(j, i) by {
        if i < r.len() - 1 {
            assert(path_step(r, i));
            assert(j[i] == r[i] && j[i + 1] == r[i + 1]);
        } else {
            let k = i - r.len() + 1;
            assert(path_step(p2, k));
            assert(j[i] == p2[k] && j[i + 1] == p2[k + 1]);
        }
    }
    if t.len() > 0 {
        assert(j.last() == p2.last());
    } else {
        assert(j.last() == r.last());
    }
}

/// Search `k` reached a block on face `f` of the chunk.
spec fn search_reached_face(owner: Seq<int>, k: int, f: int) -> bool {
    exists|p: LocalBlockPosition|
        #![trigger owner[p.index()]]
        p.is_valid() && owner[p.index()] == k && on_chunk_face(p, f)
}

/// The set of explored array indices.
spec fn explored_set(explored: Seq<bool>) -> Set<int> {
    Set::new(|i: int| 0 <= i < 32768 && explored[i])
}

proof fn lemma_explored_set_bounded(explored: Seq<bool>)
    ensures
        explored_set(explored).finite(),
        explored_set(explored).len() <= 32768,
{
    lemma_int_range(0, 32768);
    lemma_len_subset(explored_set(explored), set_int_range(0, 32768));
}

/// The search state is consistent: `owner[i]` is the search that explored block `i`
/// (or -1), and each explored block was reached from the start of its search
/// through transparent blocks.
spec fn search_wf(
    blocks: Seq<BlockId>,
    explored: Seq<bool>,
    owner: Seq<int>,
    starts: Seq<LocalBlockPosition>,
) -> bool {
    &&& explored.len() == 32768
    &&& owner.len() == 32768
    &&& forall|i: int| 0 <= i < 32768 ==> (#[trigger] explored[i] <==> 0 <= owner[i])
    &&& forall|i: int| 0 <= i < 32768 ==> #[trigger] owner[i] < starts.len()
    &&& forall|p: LocalBlockPosition|
        p.is_valid() && explored[p.index()] ==> #[trigger] transparent_block(blocks, p)
    &&& forall|p: LocalBlockPosition|
        #![trigger owner[p.index()]]
        p.is_valid() && explored[p.index()] ==> reached_from(blocks, starts[owner[p.index()]], p)
}

/// Some transparent path leads from `s` to `p`.
spec fn reached_from(blocks: Seq<BlockId>, s: LocalBlockPosition, p: LocalBlockPosition) -> bool {
    exists|path: Seq<LocalBlockPosition>|
        #![trigger is_transparent_path(blocks, path)]
        is_transparent_path(blocks, path) && path[0] == s && path.last() == p
}

/// Every transparent neighbour of an explored block is explored by the same search,
/// except neighbours of blocks of the current search `k`, which may still wait in the
/// frontier.
spec fn closed_except_frontier(
    blocks: Seq<BlockId>,
    explored: Seq<bool>,
    owner: Seq<int>,
    frontier: Seq<LocalBlockPosition>,
    k: int,
) -> bool {
    forall|p: LocalBlockPosition, f: int|
        #![trigger owner[p.index()], neighbour_spec(p, f)]
        p.is_valid() && 0 <= f < 6 && explored[p.index()] && neighbour_spec(p, f) is Some
            && transparent_block(blocks, neighbour_spec(p, f)->0) ==> (explored[neighbour_spec(
            p,
            f,
        )->0.index()] && owner[neighbour_spec(p, f)->0.index()] == owner[p.index()]) || (
        owner[p.index()] == k && frontier.contains(neighbour_spec(p, f)->0))
}

/// Explores every transparent block reachable from `start`, marking them with search
/// number `k`, and returns for each face whether the search reached a block on it.
#[verifier::spinoff_prover]
fn flood_fill(
    blocks: &[BlockId],
    explored: &mut Vec<bool>,
    frontier: &mut VecDeque<LocalBlockPosition>,
    start: LocalBlockPosition,
    Ghost(owner0): Ghost<Seq<int>>,
    Ghost(starts): Ghost<Seq<LocalBlockPosition>>,
) -> (r: (Vec<bool>, Ghost<Seq<int>>))
    requires
        blocks@.len() == 32768,
        forall|i: int| 0 <= i < 32768 ==> (#[trigger] blocks@[i]).0 < 5,
        start.is_valid(),
        transparent_block(blocks@, start),
        !old(explored)@[start.index()],
        old(frontier)@.len() == 0,
        starts.len() > 0,
        starts.last() == start,
        search_wf(blocks@, old(explored)@, owner0, starts.drop_last()),
        closed_except_frontier(blocks@, old(explored)@, owner0, Seq::empty(), -1),
    ensures
        final(frontier)@.len() == 0,
        r.0@.len() == 6,
        search_wf(blocks@, final(explored)@, r.1@, starts),
        closed_except_frontier(blocks@, final(explored)@, r.1@, Seq::empty(), -1),
        forall|i: int| 0 <= i < 32768 && old(explored)@[i] ==> #[trigger] final(explored)@[i] && r.1@[i] == owner0[i],
        forall|i: int| 0 <= i < 32768 && #[trigger] r.1@[i] != starts.len() - 1 ==> r.1@[i] == owner0[i],
        final(explored)@[start.index()],
        forall|f: int|
            0 <= f < 6 ==> (r.0@[f] <==> search_reached_face(r.1@, starts.len() - 1, f)),
{
    let ghost k = starts.len() - 1;
    let ghost mut owner = owner0;
    let mut escaped: Vec<bool> = vec![false, false, false, false, false, false];
    frontier.push_back(start);
    proof {
        crate::terrain::position_types::lemma_array_index_roundtrip(start);
        let path = seq![start];
        assert(is_transparent_path(blocks@, path));
        assert forall|p: LocalBlockPosition, f: int|
            #![trigger owner[p.index()], neighbour_spec(p, f)]
            p.is_valid() && 0 <= f < 6 && explored@[p.index()] && neighbour_spec(p, f) is Some
                && transparent_block(blocks@, neighbour_spec(p, f)->0) implies (explored@[neighbour_spec(
            p,
            f,
        )->0.index()] && owner[neighbour_spec(p, f)->0.index()] == owner[p.index()]) || (owner[p.index()]
            == k && frontier@.contains(neighbour_spec(p, f)->0)) by {
            assert(closed_except_frontier(blocks@, old(explored)@, owner0, Seq::empty(), -1));
            crate::terrain::lighting::lemma_neighbour_valid(p, f);
        }
        lemma_explored_set_bounded(explored@);
        assert(frontier@[0] == start);
    }
    loop
        invariant
            blocks@.len() == 32768,
            forall|i: int| 0 <= i < 32768 ==> (#[trigger] blocks@[i]).0 < 5,
            start.is_valid(),
            starts.len() > 0,
            starts.last() == start,
            k == starts.len() - 1,
            search_wf(blocks@, explored@, owner, starts),
            closed_except_frontier(blocks@, explored@, owner, frontier@, k),
            forall|j: int|
                0 <= j < frontier@.len() ==> (#[trigger] frontier@[j]).is_valid() && transparent_block(
                    blocks@,
                    frontier@[j],
                ) && reached_from(blocks@, start, frontier@[j]) && (explored@[frontier@[j].index()]
                    ==> owner[frontier@[j].index()] == k),
            forall|i: int| 0 <= i < 32768 && old(explored)@[i] ==> #[trigger] explored@[i] && owner[i] == owner0[i],
            forall|i: int| 0 <= i < 32768 && #[trigger] owner[i] != k ==> owner[i] == owner0[i],
            explored@[start.index()] || frontier@.contains(start),
            forall|f: int|
                0 <= f < 6 ==> (escaped@[f] <==> search_reached_face(owner, k, f)),
            explored_set(explored@).finite(),
            explored_set(explored@).len() <= 32768,
            escaped@.len() == 6,
        ensures
            frontier@.len() == 0,
            escaped@.len() == 6,
            search_wf(blocks@, explored@, owner, starts),
            closed_except_frontier(blocks@, explored@, owner, frontier@, k),
            forall|i: int| 0 <= i < 32768 && old(explored)@[i] ==> #[trigger] explored@[i] && owner[i] == owner0[i],
            forall|i: int| 0 <= i < 32768 && #[trigger] owner[i] != k ==> owner[i] == owner0[i],
            explored@[start.index()],
            forall|f: int|
                0 <= f < 6 ==> (escaped@[f] <==> search_reached_face(owner, k, f)),
        decreases 32768 - explored_set(explored@).len(), frontier@.len(),
    {
        let ghost frontier_before = frontier@;
        let popped = frontier.pop_front();
        let block_pos = match popped {
            None => {
                break ;
            },
            Some(p) => p,
        };
        proof {
            assert(frontier_before[0] == block_pos);
            crate::terrain::position_types::lemma_array_index_roundtrip(block_pos);
        }
        if explored[block_pos.get_array_index()] {
            proof {
                assert forall|p: LocalBlockPosition, f: int|
                    #![trigger owner[p.index()], neighbour_spec(p, f)]
                    p.is_valid() && 0 <= f < 6 && explored@[p.index()] && neighbour_spec(p, f) is Some
                        && transparent_block(blocks@, neighbour_spec(p, f)->0) implies (explored@[neighbour_spec(
                    p,
                    f,
                )->0.index()] && owner[neighbour_spec(p, f)->0.index()] == owner[p.index()]) || (
                owner[p.index()] == k && frontier@.contains(neighbour_spec(p, f)->0)) by {
                    let q = neighbour_spec(p, f)->0;
                    if owner[p.index()] == k && frontier_before.contains(q) && !explored@[q.index()] {
                        let j = choose|j: int| 0 <= j < frontier_before.len() && frontier_before[j] == q;
                        assert(frontier@[j - 1] == q);
                    }
                }
                if !explored@[start.index()] {
                    let j = choose|j: int| 0 <= j < frontier_before.len() && frontier_before[j] == start;
                    assert(frontier@[j - 1] == start);
                }
            }
            continue ;
        }
        let ghost explored_before = explored@;
        let ghost owner_before = owner;
        let array_index = block_pos.get_array_index();
        explored.set(array_index, true);
        proof {
            owner = owner.update(array_index as int, k);
            assert(explored_set(explored@) =~= explored_set(explored_before).insert(array_index as int));
            lemma_explored_set_bounded(explored@);
            assert(reached_from(blocks@, start, block_pos));
        }
        let ghost frontier_mid = frontier@;
        let mut block_face: usize = 0;
        while block_face < 6
            invariant
                blocks@.len() == 32768,
                forall|i: int| 0 <= i < 32768 ==> (#[trigger] blocks@[i]).0 < 5,
                block_face <= 6,
                escaped@.len() == 6,
                block_pos.is_valid(),
                array_index == block_pos.index(),
                explored@.len() == 32768,
                explored@[array_index as int],
                owner[array_index as int] == k,
                explored_before.len() == 32768,
                !explored_before[array_index as int],
                explored@ == explored_before.update(array_index as int, true),
                owner == owner_before.update(array_index as int, k),
                search_wf(blocks@, explored_before, owner_before, starts),
                closed_except_frontier(blocks@, explored_before, owner_before, frontier_before, k),
                transparent_block(blocks@, block_pos),
                reached_from(blocks@, start, block_pos),
                frontier@.len() >= frontier_mid.len(),
                forall|j: int| 0 <= j < frontier_mid.len() ==> #[trigger] frontier@[j] == frontier_mid[j],
                forall|j: int|
                    0 <= j < frontier@.len() ==> (#[trigger] frontier@[j]).is_valid() && transparent_block(
                        blocks@,
                        frontier@[j],
                    ) && reached_from(blocks@, start, frontier@[j]) && (explored@[frontier@[j].index()]
                        ==> owner[frontier@[j].index()] == k),
                forall|f: int|
                    0 <= f < block_face ==> (#[trigger] neighbour_spec(block_pos, f) is Some
                        && transparent_block(blocks@, neighbour_spec(block_pos, f)->0)) ==> (explored@[neighbour_spec(
                        block_pos,
                        f,
                    )->0.index()] && owner[neighbour_spec(block_pos, f)->0.index()] == k) || frontier@.contains(
                        neighbour_spec(block_pos, f)->0,
                    ),
                forall|f: int|
                    #![trigger escaped@[f]]
                    0 <= f < 6 ==> (escaped@[f] <==> (search_reached_face(owner_before, k, f)) || (f
                        < block_face && on_chunk_face(block_pos, f))),
            decreases 6 - block_face,
        {
            let ghost frontier_iter = frontier@;
            let ghost escaped_iter = escaped@;
            let normal = face_normal(block_face);
            match block_pos.try_add(normal) {
                Some(neighbour_pos) => {
                    proof {
                        crate::terrain::position_types::lemma_array_index_roundtrip(neighbour_pos);
                        assert(neighbour_spec(block_pos, block_face as int) == Some(neighbour_pos));
                        lemma_same_index(neighbour_pos, block_pos);
                        if explored@[neighbour_pos.index()] && owner[neighbour_pos.index()] != k {
                            // the neighbour belongs to a finished search, whose blocks have all
                            // their transparent neighbours explored: block_pos would be too
                            let f = block_face as int;
                            lemma_neighbour_symmetric(block_pos, f);
                            assert(neighbour_spec(neighbour_pos, (f + 3) % 6) == Some(block_pos));
                            assert(explored_before[neighbour_pos.index()]);
                            assert(owner_before[neighbour_pos.index()] != k);
                            assert(false);
                        }
                    }
                    let neighbour_index = neighbour_pos.get_array_index();
                    if !explored[neighbour_index] && !get_block(blocks[neighbour_index]).model.is_opaque() {
                        frontier.push_back(neighbour_pos);
                        proof {
                            let path = choose|path: Seq<LocalBlockPosition>|
                                #![trigger is_transparent_path(blocks@, path)]
                                is_transparent_path(blocks@, path) && path[0] == start && path.last()
                                    == block_pos;
                            let longer = path.push(neighbour_pos);
                            assert(path_step(longer, path.len() - 1));
                            assert forall|i: int| 0 <= i < longer.len() - 1 implies #[trigger] path_step(
                                longer,
                                i,
                            ) by {
                                if i < path.len() - 1 {
                                    assert(path_step(path, i));
                                }
                            }
                            assert(is_transparent_path(blocks@, longer));
                            assert(frontier@[frontier_iter.len() as int] == neighbour_pos);
                        }
                    }
                },
                None => {
                    proof {
                        assert(neighbour_spec(block_pos, block_face as int) is None);
                    }
                    escaped.set(block_face, true);
                    proof {
                        assert(escaped@[block_face as int]);
                        assert(forall|f: int| 0 <= f < 6 && f != block_face ==> escaped@[f] == escaped_iter[f]);
                    }
                },
            }
            proof {
                assert forall|f: int| 0 <= f < 6 implies (escaped@[f] <==> (search_reached_face(owner_before, k, f)) || (f
                    < block_face + 1 && on_chunk_face(block_pos, f))) by {
                    assert(escaped_iter[f] <==> (search_reached_face(owner_before, k, f) || (f < block_face
                        && on_chunk_face(block_pos, f))));
                    if f != block_face {
                        assert(escaped@[f] == escaped_iter[f]);
                    } else if on_chunk_face(block_pos, f) {
                        assert(escaped@[f]);
                    } else {
                        assert(escaped@[f] == escaped_iter[f]);
                    }
                }
                assert forall|f: int|
                    0 <= f < block_face + 1 && (#[trigger] neighbour_spec(block_pos, f) is Some
                        && transparent_block(blocks@, neighbour_spec(block_pos, f)->0)) implies (explored@[neighbour_spec(
                    block_pos,
                    f,
                )->0.index()] && owner[neighbour_spec(block_pos, f)->0.index()] == k) || frontier@.contains(
                    neighbour_spec(block_pos, f)->0,
                ) by {
                    let q = neighbour_spec(block_pos, f)->0;
                    if frontier_iter.contains(q) {
                        let j = choose|j: int| 0 <= j < frontier_iter.len() && frontier_iter[j] == q;
                        assert(frontier@[j] == q);
                    }
                    if f == block_face && !explored@[q.index()] {
                        assert(frontier@[frontier_iter.len() as int] == q);
                    }
                }
            }
            block_face = block_face + 1;
        }
        proof {
            assert forall|p: LocalBlockPosition, f: int|
                #![trigger owner[p.index()], neighbour_spec(p, f)]
                p.is_valid() && 0 <= f < 6 && explored@[p.index()] && neighbour_spec(p, f) is Some
                    && transparent_block(blocks@, neighbour_spec(p, f)->0) implies (explored@[neighbour_spec(
                p,
                f,
            )->0.index()] && owner[neighbour_spec(p, f)->0.index()] == owner[p.index()]) || (owner[p.index()]
                == k && frontier@.contains(neighbour_spec(p, f)->0)) by {
                let q = neighbour_spec(p, f)->0;
                crate::terrain::position_types::lemma_array_index_roundtrip(p);
                crate::terrain::lighting::lemma_neighbour_valid(p, f);
                lemma_same_index(p, block_pos);
                if p.index() == array_index as int {
                    assert(p == block_pos);
                } else {
                    lemma_same_index(q, block_pos);
                    if owner[p.index()] == k && frontier_before.contains(q) && !explored@[q.index()] {
                        let j = choose|j: int| 0 <= j < frontier_before.len() && frontier_before[j] == q;
                        assert(j != 0);
                        assert(frontier@[j - 1] == q);
                    }
                }
            }
            assert forall|f: int|
                0 <= f < 6 implies (escaped@[f] <==> search_reached_face(owner, k, f)) by {
                if escaped@[f] && !on_chunk_face(block_pos, f) {
                    let p = choose|p: LocalBlockPosition|
                        #![trigger owner_before[p.index()]]
                        p.is_valid() && owner_before[p.index()] == k && on_chunk_face(p, f);
                    assert(owner[p.index()] == k);
                }
                if on_chunk_face(block_pos, f) {
                    assert(owner[block_pos.index()] == k);
                }
                if search_reached_face(owner, k, f) {
                    let p = choose|p: LocalBlockPosition|
                        #![trigger owner[p.index()]]
                        p.is_valid() && owner[p.index()] == k && on_chunk_face(p, f);
                    lemma_same_index(p, block_pos);
                    if p.index() != array_index as int {
                        assert(owner_before[p.index()] == k);
                    }
                }
            }
            assert forall|p: LocalBlockPosition|
                #![trigger owner[p.index()]]
                p.is_valid() && explored@[p.index()] implies reached_from(
                blocks@,
                starts[owner[p.index()]],
                p,
            ) by {
                lemma_same_index(p, block_pos);
            }
            assert forall|p: LocalBlockPosition|
                p.is_valid() && explored@[p.index()] implies #[trigger] transparent_block(blocks@, p) by {
                lemma_same_index(p, block_pos);
            }
            if !explored@[start.index()] {
                let j = choose|j: int| 0 <= j < frontier_before.len() && frontier_before[j] == start;
                assert(j != 0);
                assert(frontier@[j - 1] == start);
            }
        }
    }
    (escaped, Ghost(owner))
}

/// Transparent neighbours of explored blocks are explored by the same search.
spec fn searches_closed(blocks: Seq<BlockId>, explored: Seq<bool>, owner: Seq<int>) -> bool {
    closed_except_frontier(blocks, explored, owner, Seq::empty(), -1)
}

/// Some search reached both face `a` and face `b`.
spec fn some_search_reached_both(owner: Seq<int>, n: int, a: int, b: int) -> bool {
    exists|j: int|
        0 <= j < n && #[trigger] search_reached_face(owner, j, a) && search_reached_face(owner, j, b)
}

/// Every block along a transparent path from an explored block was explored by the
/// same search.
proof fn lemma_path_same_search(
    blocks: Seq<BlockId>,
    explored: Seq<bool>,
    owner: Seq<int>,
    starts: Seq<LocalBlockPosition>,
    path: Seq<LocalBlockPosition>,
    i: int,
)
    requires
        search_wf(blocks, explored, owner, starts),
        searches_closed(blocks, explored, owner),
        is_transparent_path(blocks, path),
        explored[path[0].index()],
        0 <= i < path.len(),
    ensures
        explored[path[i].index()],
        owner[path[i].index()] == owner[path[0].index()],
    decreases i,
{
    if i > 0 {
        lemma_path_same_search(blocks, explored, owner, starts, path, i - 1);
        assert(path_step(path, i - 1));
        let prev = path[i - 1];
        let f = choose|f: int| 0 <= f < 6 && #[trigger] neighbour_spec(prev, f) == Some(path[i]);
        assert(path[i - 1].is_valid() && path[i].is_valid() && transparent_block(blocks, path[i]));
        assert(owner[path[i - 1].index()] >= 0);
    }
}

/// Sets bit `idx` of `bits` when `cond` holds.
fn set_bit_if(bits: u16, idx: u16, cond: bool) -> (r: u16)
    requires
        idx < 16,
    ensures
        forall|i: u16| i < 16 ==> (#[trigger] bit_set(r, i) <==> bit_set(bits, i) || (cond && i == idx)),
{
    let r = if cond {
        bits | (1u16 << idx)
    } else {
        bits
    };
    assert forall|i: u16| i < 16 implies (#[trigger] bit_set(r, i) <==> bit_set(bits, i) || (cond && i
        == idx)) by {
        if cond {
            assert(((bits | (1u16 << idx)) & (1u16 << i) != 0) <==> ((bits & (1u16 << i) != 0) || i
                == idx)) by (bit_vector)
                requires
                    idx < 16,
                    i < 16,
            ;
        }
    }
    r
}

/// Records in `bits` the pairs of faces reached by one search.
fn add_connection_bits(bits: u16, escaped: &Vec<bool>) -> (r: u16)
    requires
        escaped@.len() == 6,
    ensures
        forall|a: int, b: int|
            0 <= a < 6 && 0 <= b < 6 && a != b ==> (bit_set(r, connection_index_spec(a, b)) <==> bit_set(
                bits,
                connection_index_spec(a, b),
            ) || (escaped@[a] && escaped@[b])),
        bit_set(r, 15) == bit_set(bits, 15),
{
    // +x +y
    let r = set_bit_if(bits, 0, escaped[0] && escaped[1]);
    // +x +z
    let r = set_bit_if(r, 1, escaped[0] && escaped[2]);
    // +x -x
    let r = set_bit_if(r, 2, escaped[0] && escaped[3]);
    // +x -y
    let r = set_bit_if(r, 3, escaped[0] && escaped[4]);
    // +x -z
    let r = set_bit_if(r, 4, escaped[0] && escaped[5]);
    // +y +z
    let r = set_bit_if(r, 5, escaped[1] && escaped[2]);
    // +y -x
    let r = set_bit_if(r, 6, escaped[1] && escaped[3]);
    // +y -y
    let r = set_bit_if(r, 7, escaped[1] && escaped[4]);
    // +y -z
    let r = set_bit_if(r, 8, escaped[1] && escaped[5]);
    // +z -x
    let r = set_bit_if(r, 9, escaped[2] && escaped[3]);
    // +z -y
    let r = set_bit_if(r, 10, escaped[2] && escaped[4]);
    // +z -z
    let r = set_bit_if(r, 11, escaped[2] && escaped[5]);
    // -x -y
    let r = set_bit_if(r, 12, escaped[3] && escaped[4]);
    // -x -z
    let r = set_bit_if(r, 13, escaped[3] && escaped[5]);
    // -y -z
    let r = set_bit_if(r, 14, escaped[4] && escaped[5]);
    r
}

impl ChunkConnections {
    /// Compute the connections for the given block array
    pub fn compute(blocks: &[BlockId]) -> (r: Self)
        requires
            blocks@.len() == 32768,
            forall|i: int| 0 <= i < 32768 ==> (#[trigger] blocks@[i]).0 < 5,
        ensures
            forall|a: int, b: int|
                0 <= a < 6 && 0 <= b < 6 && a != b ==> (bit_set(r.0, connection_index_spec(a, b))
                    <==> faces_connected(blocks@, a, b)),
            !bit_set(r.0, 15),
    {
        let mut connection_bits: u16 = 0;
        let mut explored: Vec<bool> = Vec::new();
        while explored.len() < CHUNK_SIZE_CUBED
            invariant
                explored@.len() <= 32768,
                forall|i: int| 0 <= i < explored@.len() ==> !(#[trigger] explored@[i]),
            decreases 32768 - explored@.len(),
        {
            explored.push(false);
        }
        let mut frontier: VecDeque<LocalBlockPosition> = VecDeque::new();
        let ghost mut owner: Seq<int> = Seq::new(32768, |i: int| -1);
        let ghost mut starts: Seq<LocalBlockPosition> = Seq::empty();
        proof {
            assert(forall|i: u16| i < 16 ==> 0u16 & (1u16 << i) == 0) by (bit_vector);
            assert forall|a: int, b: int|
                0 <= a < 6 && 0 <= b < 6 && a != b implies !bit_set(0u16, connection_index_spec(a, b)) by {
                assert(connection_index_spec(a, b) < 16);
            }
        }

        // iterate over all blocks on the edge of the chunk to start the flood fills
        let mut t: usize = 0;
        while t < 6144
            invariant
                blocks@.len() == 32768,
                forall|i: int| 0 <= i < 32768 ==> (#[trigger] blocks@[i]).0 < 5,
                t <= 6144,
                frontier@.len() == 0,
                search_wf(blocks@, explored@, owner, starts),
                searches_closed(blocks@, explored@, owner),
                forall|tt: int|
                    0 <= tt < t && transparent_block(blocks@, #[trigger] face_start_spec(tt)) ==> explored@[face_start_spec(
                        tt,
                    ).index()],
                forall|a: int, b: int|
                    0 <= a < 6 && 0 <= b < 6 && a != b ==> (bit_set(
                        connection_bits,
                        connection_index_spec(a, b),
                    ) <==> some_search_reached_both(owner, starts.len() as int, a, b)),
                !bit_set(connection_bits, 15),
            decreases 6144 - t,
        {
            let start_pos = face_start(t);
            proof {
                crate::terrain::position_types::lemma_array_index_roundtrip(start_pos);
            }
            let array_index = start_pos.get_array_index();

            // skip explored and opaque blocks
            if !explored[array_index] && !get_block(blocks[array_index]).model.is_opaque() {
                let ghost owner_old = owner;
                let ghost starts_old = starts;
                let ghost explored_old = explored@;
                proof {
                    starts = starts.push(start_pos);
                    assert(starts.drop_last() =~= starts_old);
                }
                let (escaped, Ghost(owner_new)) = flood_fill(
                    blocks,
                    &mut explored,
                    &mut frontier,
                    start_pos,
                    Ghost(owner),
                    Ghost(starts),
                );
                proof {
                    owner = owner_new;
                }
                let ghost bits_old = connection_bits;
                connection_bits = add_connection_bits(connection_bits, &escaped);
                proof {
                    let k = starts_old.len() as int;
                    // earlier searches reached the same faces as before
                    assert forall|j: int, f: int|
                        0 <= j < k && 0 <= f < 6 implies #[trigger] search_reached_face(owner, j, f)
                        == search_reached_face(owner_old, j, f) by {
                        if search_reached_face(owner, j, f) {
                            let p = choose|p: LocalBlockPosition|
                                #![trigger owner[p.index()]]
                                p.is_valid() && owner[p.index()] == j && on_chunk_face(p, f);
                            crate::terrain::position_types::lemma_array_index_roundtrip(p);
                            assert(owner_old[p.index()] == j);
                        }
                        if search_reached_face(owner_old, j, f) {
                            let p = choose|p: LocalBlockPosition|
                                #![trigger owner_old[p.index()]]
                                p.is_valid() && owner_old[p.index()] == j && on_chunk_face(p, f);
                            crate::terrain::position_types::lemma_array_index_roundtrip(p);
                            assert(explored_old[p.index()]);
                            assert(owner[p.index()] == j);
                        }
                    }
                    assert forall|a: int, b: int|
                        0 <= a < 6 && 0 <= b < 6 && a != b implies (bit_set(
                        connection_bits,
                        connection_index_spec(a, b),
                    ) <==> some_search_reached_both(owner, starts.len() as int, a, b)) by {
                        if some_search_reached_both(owner, starts.len() as int, a, b) {
                            let j = choose|j: int|
                                0 <= j < starts.len() && #[trigger] search_reached_face(owner, j, a)
                                    && search_reached_face(owner, j, b);
                            if j < k {
                                assert(search_reached_face(owner_old, j, a));
                                assert(search_reached_face(owner_old, j, b));
                                assert(some_search_reached_both(owner_old, k, a, b));
                            }
                        }
                        if some_search_reached_both(owner_old, k, a, b) {
                            let j = choose|j: int|
                                0 <= j < k && #[trigger] search_reached_face(owner_old, j, a)
                                    && search_reached_face(owner_old, j, b);
                            assert(search_reached_face(owner, j, a));
                            assert(search_reached_face(owner, j, b));
                        }
                        if escaped@[a] && escaped@[b] {
                            assert(search_reached_face(owner, k, a));
                        }
                    }
                    assert forall|tt: int|
                        0 <= tt < t + 1 && transparent_block(blocks@, #[trigger] face_start_spec(tt)) implies explored@[face_start_spec(
                        tt,
                    ).index()] by {
                        if tt < t {
                            crate::terrain::position_types::lemma_array_index_roundtrip(
                                face_start_spec(tt),
                            );
                        }
                    }
                }
            }
            t = t + 1;
        }
        proof {
            assert forall|a: int, b: int|
                0 <= a < 6 && 0 <= b < 6 && a != b implies (bit_set(
                connection_bits,
                connection_index_spec(a, b),
            ) <==> faces_connected(blocks@, a, b)) by {
                if faces_connected(blocks@, a, b) {
                    let path = choose|path: Seq<LocalBlockPosition>|
                        #![trigger is_transparent_path(blocks@, path)]
                        is_transparent_path(blocks@, path) && on_chunk_face(path[0], a)
                            && on_chunk_face(path.last(), b);
                    assert(path[0].is_valid() && transparent_block(blocks@, path[0]));
                    lemma_face_block_is_start(path[0], a);
                    let tt = choose|tt: int| 0 <= tt < 6144 && #[trigger] face_start_spec(tt) == path[0];
                    assert(explored@[path[0].index()]);
                    lemma_path_same_search(blocks@, explored@, owner, starts, path, path.len() - 1);
                    let j = owner[path[0].index()];
                    assert(path.last() == path[path.len() - 1]);
                    assert(path[path.len() - 1].is_valid());
                    assert(search_reached_face(owner, j, a));
                    assert(search_reached_face(owner, j, b));
                    assert(some_search_reached_both(owner, starts.len() as int, a, b));
                }
                if some_search_reached_both(owner, starts.len() as int, a, b) {
                    let j = choose|j: int|
                        0 <= j < starts.len() && #[trigger] search_reached_face(owner, j, a)
                            && search_reached_face(owner, j, b);
                    let p = choose|p: LocalBlockPosition|
                        #![trigger owner[p.index()]]
                        p.is_valid() && owner[p.index()] == j && on_chunk_face(p, a);
                    let q = choose|q: LocalBlockPosition|
                        #![trigger owner[q.index()]]
                        q.is_valid() && owner[q.index()] == j && on_chunk_face(q, b);
                    crate::terrain::position_types::lemma_array_index_roundtrip(p);
                    crate::terrain::position_types::lemma_array_index_roundtrip(q);
                    assert(explored@[p.index()] && explored@[q.index()]);
                    let pp = choose|path: Seq<LocalBlockPosition>|
                        #![trigger is_transparent_path(blocks@, path)]
                        is_transparent_path(blocks@, path) && path[0] == starts[j] && path.last() == p;
                    let pq = choose|path: Seq<LocalBlockPosition>|
                        #![trigger is_transparent_path(blocks@, path)]
                        is_transparent_path(blocks@, path) && path[0] == starts[j] && path.last() == q;
                    lemma_path_join(blocks@, pp, pq);
                    let joined = pp.reverse() + pq.skip(1);
                    assert(is_transparent_path(blocks@, joined) && on_chunk_face(joined[0], a)
                        && on_chunk_face(joined.last(), b));
                }
            }
        }
        ChunkConnections(connection_bits)
    }

    /// True if face A is connected to face B through non-opaque blocks.
    /// We assume that if ¬connected(face_a, face_b) then face_b cannot be visible through face_a
    /// and vice-versa
    pub fn connected(&self, face_a: FaceIndex, face_b: FaceIndex) -> (r: bool)
        requires
            face_a.is_valid(),
            face_b.is_valid(),
        ensures
            r == bit_set(self.0, connection_index_spec(face_a.0 as int, face_b.0 as int)),
    {
        let connection_index = connection_index(face_a.as_usize(), face_b.as_usize());
        (self.0 & (1u16 << connection_index)) != 0
    }
}

/// The connections computed for a chunk say exactly which pairs of distinct faces
/// see each other through transparent blocks, and the relation is symmetric; a face
/// is never reported connected to itself.
pub proof fn lemma_connections_law(blocks: Seq<BlockId>, c: ChunkConnections, a: int, b: int)
    requires
        blocks.len() == 32768,
        forall|a: int, b: int|
            0 <= a < 6 && 0 <= b < 6 && a != b ==> (bit_set(c.0, connection_index_spec(a, b))
                <==> faces_connected(blocks, a, b)),
        !bit_set(c.0, 15),
        0 <= a < 6,
        0 <= b < 6,
    ensures
        bit_set(c.0, connection_index_spec(a, b)) <==> (a != b && faces_connected(blocks, a, b)),
        bit_set(c.0, connection_index_spec(a, b)) == bit_set(c.0, connection_index_spec(b, a)),
{
}

} // verus!
